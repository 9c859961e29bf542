//! Which base an object gets, and how it is stored against it.
use pack_encoder::delta::try_as_offset_delta;
use pack_encoder::error::GitError;
use pack_encoder::hash::ObjectHash;
use pack_encoder::object::{Entry, IndexEntry, ObjectType};
use pack_encoder::similarity::{cheap_similar, fronts_match, sizes_differ};
use pack_encoder::window::{pick_base, Candidate, DeltaWindow, RateOrder, RateQuery};

fn hash(n: usize) -> ObjectHash {
    let mut bytes = [0u8; 20];
    bytes[0] = (n % 256) as u8;
    bytes[1] = (n / 256) as u8;
    ObjectHash::Sha1(bytes)
}

fn blob(n: usize, data: &[u8]) -> Entry {
    Entry { obj_type: ObjectType::Blob, data: data.to_vec(), hash: hash(n), chain_len: 0 }
}

/// Objects with the same front and different ends.
fn similar_blobs(count: usize) -> Vec<Entry> {
    (0..count)
        .map(|n| {
            let mut data = b"0123456789".repeat(20);
            data.extend_from_slice(format!("{n:04}").as_bytes());
            blob(n, &data)
        })
        .collect()
}

fn half(queries: &Vec<RateQuery<'_>>, _data: &[u8]) -> Vec<Option<f64>> {
    queries.iter().map(|_| Some(0.75)).collect()
}

fn nothing(queries: &Vec<RateQuery<'_>>, _data: &[u8]) -> Vec<Option<f64>> {
    queries.iter().map(|_| None).collect()
}

fn order(rate: &f64, best: &f64) -> RateOrder {
    if *rate > *best + 0.15 {
        RateOrder::Higher
    } else if (*rate - *best).abs() <= 0.15 {
        RateOrder::Tied
    } else {
        RateOrder::Lower
    }
}

/// A delta that says which base it is against, by the end of the base.
fn named(base: &[u8], data: &[u8], zstdelta: bool) -> Vec<u8> {
    let mut delta = vec![if zstdelta { b'z' } else { b'd' }];
    delta.extend_from_slice(&base[base.len() - 4..]);
    delta.extend_from_slice(&data[data.len() - 4..]);
    delta
}

/// The type number and the distance of an encoded object with a small payload.
fn stored(object: &(Vec<u8>, IndexEntry)) -> (u8, Option<usize>) {
    let bytes = &object.0;
    let kind = (bytes[0] >> 4) & 7;
    let mut at = 1;
    while bytes[at] & 0x80 != 0 {
        at += 1;
    }
    at += 1;
    if kind != 5 && kind != 6 {
        return (kind, None);
    }
    let mut distance = usize::from(bytes[at] & 0x7f);
    while bytes[at] & 0x80 != 0 {
        at += 1;
        distance = ((distance + 1) << 7) | usize::from(bytes[at] & 0x7f);
    }
    (kind, Some(distance))
}

fn starts(res: &[(Vec<u8>, IndexEntry)]) -> Vec<usize> {
    let mut at = 0;
    res.iter()
        .map(|object| {
            let start = at;
            at += object.0.len();
            start
        })
        .collect()
}

#[test]
fn same_fronts_are_similar() {
    assert!(cheap_similar(b"abc", b"abcdef"));
    assert!(cheap_similar(&[5; 200], &[5; 129]));
    let mut other = vec![5u8; 200];
    other[128] = 6;
    assert!(cheap_similar(&[5; 200], &other));
}

#[test]
fn different_fronts_are_not_similar() {
    assert!(!cheap_similar(b"hello, word", b"hello, world."));
    let mut other = vec![5u8; 200];
    other[127] = 6;
    assert!(!cheap_similar(&[5; 200], &other));
}

#[test]
fn only_fronts_matter() {
    let long: Vec<u8> = (0..300u32).map(|n| (n % 251) as u8).collect();
    let mut other = long.clone();
    other[200] = 0;
    let mut changed = long.clone();
    changed[5] = 0xff;
    for (a, b) in [(&long, &other), (&long, &changed), (&changed, &other)] {
        let similar = cheap_similar(a, b);
        assert_eq!(similar, cheap_similar(&a[..128], &b[..128]));
        assert_eq!(similar, cheap_similar(b, a));
    }
    assert!(cheap_similar(&long, &other));
    assert!(!cheap_similar(&long, &changed));
}

#[test]
fn empty_objects_are_not_similar() {
    assert!(!cheap_similar(b"", b""));
    assert!(!cheap_similar(b"", b"abc"));
    assert!(!cheap_similar(b"abc", b""));
}

#[test]
fn fronts_match_by_hash_unless_empty() {
    assert!(fronts_match(1, (7, 7)));
    assert!(!fronts_match(1, (7, 8)));
    assert!(!fronts_match(0, (7, 7)));
}

#[test]
fn sizes_differ_below_half() {
    for a in 0usize..40 {
        for b in 0usize..40 {
            let ratio = a.min(b) as f64 / a.max(b) as f64;
            assert_eq!(sizes_differ(a, b), ratio < 0.5, "{a} and {b}");
        }
    }
    assert!(sizes_differ(1, usize::MAX));
    assert!(!sizes_differ(usize::MAX, usize::MAX));
    assert!(!sizes_differ(usize::MAX / 2 + 1, usize::MAX));
}

#[test]
fn only_eligible_objects_may_serve() {
    let mut window = DeltaWindow::new(4, false);
    assert!(window.encode_next(blob(1, b"0123456789"), None).unwrap());
    assert!(window.may_serve(0, &blob(2, b"0123456789")));
    assert!(!window.may_serve(0, &blob(1, b"0123456789")));
    assert!(!window.may_serve(0, &blob(2, b"0123")));
    assert!(window.may_serve(0, &blob(2, b"01234")));
    let tree = Entry { obj_type: ObjectType::Tree, ..blob(2, b"0123456789") };
    assert!(!window.may_serve(0, &tree));
}

#[test]
fn only_similar_objects_are_offered() {
    let mut window = DeltaWindow::new(4, false);
    assert!(window.encode_next(blob(1, b"0123456789"), None).unwrap());
    let entry = blob(2, b"9876543210");
    let candidate = Candidate { slot: 0, estimate: false };
    assert_eq!(window.offer(0, &entry, true), Some(candidate));
    assert_eq!(window.offer(0, &entry, false), None);
    assert!(window.may_serve(0, &entry));
    assert!(window.candidates(&entry).is_empty());
    assert_eq!(window.candidates(&blob(2, b"0123456789")), vec![candidate]);
}

#[test]
fn long_chains_serve_no_more() {
    let mut window = DeltaWindow::new(4, false);
    let end = Entry { chain_len: 50, ..blob(1, b"0123456789") };
    let near = Entry { chain_len: 49, ..blob(2, b"0123456789") };
    assert!(window.encode_next(end, None).unwrap());
    assert!(window.encode_next(near, None).unwrap());
    let entry = blob(3, b"0123456789");
    assert!(!window.may_serve(0, &entry));
    assert!(window.may_serve(1, &entry));
    let slots: Vec<usize> = window.candidates(&entry).iter().map(|c| c.slot).collect();
    assert_eq!(slots, vec![1]);
}

#[test]
fn window_forgets_the_oldest() {
    let mut window = DeltaWindow::new(2, false);
    for entry in similar_blobs(3) {
        assert!(window.encode_next(entry, None).unwrap());
    }
    assert!(window.base_data(0).ends_with(b"0001"));
    assert!(window.base_data(1).ends_with(b"0002"));
    let entry = blob(9, &b"0123456789".repeat(20));
    let slots: Vec<usize> = window.candidates(&entry).iter().map(|c| c.slot).collect();
    assert_eq!(slots, vec![0, 1]);
}

#[test]
fn long_objects_are_estimated() {
    let mut window = DeltaWindow::new(2, false);
    assert!(window.encode_next(blob(1, &[1; 64]), None).unwrap());
    assert!(window.encode_next(blob(2, &[1; 66]), None).unwrap());
    let entry = blob(3, &[1; 64]);
    let candidates = window.candidates(&entry);
    assert_eq!(
        candidates,
        vec![Candidate { slot: 0, estimate: false }, Candidate { slot: 1, estimate: true }]
    );
    let queries = window.queries(&candidates, &entry);
    assert_eq!(queries[0].base, &[1; 64]);
    assert!(!queries[0].estimate);
    assert_eq!(queries[1].base, &[1; 66]);
    assert!(queries[1].estimate);
}

/// A window whose three objects end chains of the given lengths.
fn window_of_chains(chains: [usize; 3]) -> (DeltaWindow, Vec<Candidate>) {
    let mut window = DeltaWindow::new(3, false);
    for (n, chain_len) in chains.into_iter().enumerate() {
        let entry = Entry { chain_len, ..blob(n, &[1; 10]) };
        assert!(window.encode_next(entry, None).unwrap());
    }
    let candidates = (0..3).map(|slot| Candidate { slot, estimate: false }).collect();
    (window, candidates)
}

#[test]
fn first_of_level_candidates_is_picked() {
    let (window, candidates) = window_of_chains([1, 1, 1]);
    let rates = vec![Some(0.6), Some(0.7), Some(0.74)];
    assert_eq!(pick_base(&window, &candidates, &rates, &order), Some(0));
}

#[test]
fn clearly_better_candidate_is_picked() {
    let (window, candidates) = window_of_chains([9, 0, 0]);
    let rates = vec![Some(0.6), Some(0.8), Some(0.85)];
    assert_eq!(pick_base(&window, &candidates, &rates, &order), Some(1));
}

#[test]
fn longer_chain_wins_a_tie() {
    let (window, candidates) = window_of_chains([1, 2, 3]);
    let rates = vec![Some(0.9), Some(0.8), Some(0.6)];
    assert_eq!(pick_base(&window, &candidates, &rates, &order), Some(1));
}

#[test]
fn candidates_that_save_too_little_are_passed_over() {
    let (window, candidates) = window_of_chains([1, 2, 3]);
    assert_eq!(pick_base(&window, &candidates, &vec![None, None, Some(0.6)], &order), Some(2));
    assert_eq!(pick_base(&window, &candidates, &vec![None, None, None::<f64>], &order), None);
}

#[test]
fn deltas_lead_back_to_their_bases() {
    let res = try_as_offset_delta(similar_blobs(5), 10, false, &half, &order, &named)
        .unwrap()
        .unwrap();
    let starts = starts(&res);
    assert_eq!(stored(&res[0]), (3, None));
    // Each delta is tied with its base and ends the longer chain.
    for n in 1..5 {
        assert_eq!(stored(&res[n]), (6, Some(starts[n] - starts[n - 1])));
    }
    for (n, object) in res.iter().enumerate() {
        assert!(object.1.hash == hash(n));
        assert_eq!(object.1.offset, 0);
    }
}

#[test]
fn zstd_deltas_have_their_own_type() {
    let res = try_as_offset_delta(similar_blobs(2), 10, true, &half, &order, &named)
        .unwrap()
        .unwrap();
    assert_eq!(stored(&res[0]).0, 3);
    assert_eq!(stored(&res[1]).0, 5);
}

#[test]
fn window_of_one_reaches_back_one() {
    let mut entries = similar_blobs(3);
    entries[1] = blob(1, b"something else altogether");
    let res = try_as_offset_delta(entries, 1, false, &half, &order, &named).unwrap().unwrap();
    assert!(res.iter().all(|object| stored(object).0 == 3));
    let mut entries = similar_blobs(3);
    entries[1] = blob(1, b"something else altogether");
    let res = try_as_offset_delta(entries, 2, false, &half, &order, &named).unwrap().unwrap();
    let starts = starts(&res);
    assert_eq!(stored(&res[2]), (6, Some(starts[2] - starts[0])));
}

#[test]
fn window_of_zero_makes_no_deltas() {
    let res = try_as_offset_delta(similar_blobs(5), 0, false, &half, &order, &named)
        .unwrap()
        .unwrap();
    assert!(res.iter().all(|object| stored(object) == (3, None)));
}

#[test]
fn nothing_saved_makes_no_deltas() {
    let res = try_as_offset_delta(similar_blobs(5), 10, false, &nothing, &order, &named)
        .unwrap()
        .unwrap();
    assert!(res.iter().all(|object| stored(object) == (3, None)));
}

#[test]
fn chains_end_after_fifty_deltas() {
    let res = try_as_offset_delta(similar_blobs(60), 1, false, &half, &order, &named)
        .unwrap()
        .unwrap();
    let whole: Vec<usize> = (0..60).filter(|&n| stored(&res[n]).0 == 3).collect();
    assert_eq!(whole, vec![0, 51]);
}

#[test]
fn equal_objects_are_not_deltas_of_each_other() {
    let entries = vec![blob(1, &[7; 100]), blob(1, &[7; 100])];
    let res = try_as_offset_delta(entries, 10, false, &half, &order, &named).unwrap().unwrap();
    assert!(res.iter().all(|object| stored(object) == (3, None)));
}

#[test]
fn dissimilar_objects_are_not_bases() {
    let mut other = b"0123456789".repeat(20);
    other[0] = b'x';
    other.extend_from_slice(b"0000");
    let mut entries = similar_blobs(1);
    entries.push(blob(1, &other));
    let res = try_as_offset_delta(entries, 10, false, &half, &order, &named).unwrap().unwrap();
    assert!(res.iter().all(|object| stored(object) == (3, None)));
}

#[test]
fn empty_objects_are_stored_whole() {
    let entries = vec![blob(1, b""), blob(2, b""), blob(3, b"x")];
    let res = try_as_offset_delta(entries, 10, false, &half, &order, &named).unwrap().unwrap();
    assert!(res.iter().all(|object| stored(object) == (3, None)));
}

#[test]
fn entries_behind_a_refused_one_are_not_encoded() {
    let task = Entry { obj_type: ObjectType::Task, ..blob(1, b"ai") };
    let delta = Entry { obj_type: ObjectType::HashDelta, ..blob(2, b"delta") };
    assert!(try_as_offset_delta(vec![task, delta], 10, false, &half, &order, &named).is_err());
}

#[test]
fn empty_bucket_gives_nothing() {
    let res = try_as_offset_delta(Vec::new(), 10, false, &half, &order, &named).unwrap().unwrap();
    assert!(res.is_empty());
}

#[test]
fn unnumbered_entry_of_a_bucket_is_refused() {
    let task = Entry { obj_type: ObjectType::Task, ..blob(1, b"ai") };
    let GitError::PackEncodeError(reason) =
        try_as_offset_delta(vec![task], 10, false, &half, &order, &named).unwrap_err();
    assert_eq!(reason, "object type `task` has no type number in a pack");
}
