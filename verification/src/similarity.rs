//! Cheap tests of whether one object is worth a delta against another.
use ahash::AHasher;
use std::hash::{Hash, Hasher};
use vstd::prelude::*;
use vstd::slice::slice_subrange;

verus! {

/// How many bytes at the front of two objects are compared.
pub const PREFIX_LEN: usize = 128;

/// The number of bytes that the comparison of two objects looks at.
pub open spec fn prefix_len(a: Seq<u8>, b: Seq<u8>) -> int {
    let shorter = if a.len() <= b.len() {
        a.len() as int
    } else {
        b.len() as int
    };
    if shorter <= PREFIX_LEN {
        shorter
    } else {
        PREFIX_LEN as int
    }
}

/// Whether the compared fronts of two objects are there and are the same.
pub open spec fn same_front(a: Seq<u8>, b: Seq<u8>) -> bool {
    &&& prefix_len(a, b) > 0
    &&& a.take(prefix_len(a, b)) == b.take(prefix_len(a, b))
}

/// The compared front of the first of two objects.
pub open spec fn front_of(a: Seq<u8>, b: Seq<u8>) -> Seq<u8> {
    a.take(prefix_len(a, b))
}

/// Whether `hashes` is what one call of `calc_hash` can return for two slices of these
/// bytes, handed in either way round.
pub closed spec fn hashes_drawn(a: Seq<u8>, b: Seq<u8>, hashes: (u64, u64)) -> bool {
    hashes_returned(a, b, hashes) || hashes_returned(b, a, (hashes.1, hashes.0))
}

/// Whether `hashes` is what `calc_hash` can return for two slices of these bytes.
spec fn hashes_returned(a: Seq<u8>, b: Seq<u8>, hashes: (u64, u64)) -> bool {
    exists|slice_a: &[u8], slice_b: &[u8]|
        {
            &&& slice_a@ == a
            &&& slice_b@ == b
            &&& #[trigger] call_ensures(calc_hash, (slice_a, slice_b), hashes)
        }
}

/// Whether `similar` is what comparing the fronts of two objects by hash can yield: an
/// empty front is similar to nothing, and any other two are similar where their hashes
/// are the same.
pub open spec fn fronts_compared(a: Seq<u8>, b: Seq<u8>, similar: bool) -> bool {
    if prefix_len(a, b) == 0 {
        !similar
    } else {
        exists|hashes: (u64, u64)|
            {
                &&& #[trigger] hashes_drawn(front_of(a, b), front_of(b, a), hashes)
                &&& similar == (hashes.0 == hashes.1)
            }
    }
}

/// Cheap check of whether two objects are similar, by the hashes of their fronts. An
/// empty object never passes. Two others pass if and only if the hashes that were drawn
/// for their fronts are the same, which objects with the same front always do.
pub fn cheap_similar(a: &[u8], b: &[u8]) -> (similar: bool)
    ensures
        fronts_compared(a@, b@, similar),
        same_front(a@, b@) ==> similar,
{
    let shorter: usize = if a.len() <= b.len() {
        a.len()
    } else {
        b.len()
    };
    let k: usize = if shorter <= PREFIX_LEN {
        shorter
    } else {
        PREFIX_LEN
    };
    if k == 0 {
        return fronts_match(k, (0, 0));
    }
    let front_a: &[u8] = slice_subrange(a, 0, k);
    let front_b: &[u8] = slice_subrange(b, 0, k);
    assert(front_a@ =~= front_of(a@, b@));
    assert(front_b@ =~= front_of(b@, a@));
    let hashes: (u64, u64) = calc_hash(front_a, front_b);
    assert(call_ensures(calc_hash, (front_a, front_b), hashes));
    assert(hashes_returned(front_of(a@, b@), front_of(b@, a@), hashes));
    assert(hashes_drawn(front_of(a@, b@), front_of(b@, a@), hashes));
    fronts_match(k, hashes)
}

/// The hashes that are drawn for two slices of the same bytes are the same.
pub proof fn law_same_bytes_have_one_hash(bytes: Seq<u8>, hashes: (u64, u64))
    requires
        hashes_drawn(bytes, bytes, hashes),
    ensures
        hashes.0 == hashes.1,
{
}

/// Comparing is symmetric: it can yield of two objects what it can yield of them exchanged.
pub proof fn law_comparing_is_symmetric(a: Seq<u8>, b: Seq<u8>, similar: bool)
    ensures
        fronts_compared(a, b, similar) == fronts_compared(b, a, similar),
{
    if fronts_compared(a, b, similar) {
        lemma_compared_exchanged(a, b, similar);
    }
    if fronts_compared(b, a, similar) {
        lemma_compared_exchanged(b, a, similar);
    }
}

/// What comparing can yield of two objects, it can yield of them exchanged.
proof fn lemma_compared_exchanged(a: Seq<u8>, b: Seq<u8>, similar: bool)
    requires
        fronts_compared(a, b, similar),
    ensures
        fronts_compared(b, a, similar),
{
    assert(prefix_len(a, b) == prefix_len(b, a));
    if prefix_len(a, b) != 0 {
        let hashes = choose|hashes: (u64, u64)|
            {
                &&& #[trigger] hashes_drawn(front_of(a, b), front_of(b, a), hashes)
                &&& similar == (hashes.0 == hashes.1)
            };
        assert(hashes_drawn(front_of(b, a), front_of(a, b), (hashes.1, hashes.0)));
    }
}

/// Bytes behind the front never matter: comparing two objects can yield the same as
/// comparing no more of each than its first 128 bytes.
pub proof fn law_only_fronts_matter(a: Seq<u8>, b: Seq<u8>, similar: bool)
    ensures
        fronts_compared(a, b, similar) == fronts_compared(
            kept_front(a),
            kept_front(b),
            similar,
        ),
{
    let (short_a, short_b) = (kept_front(a), kept_front(b));
    assert(prefix_len(short_a, short_b) == prefix_len(a, b));
    assert(front_of(short_a, short_b) =~= front_of(a, b));
    assert(front_of(short_b, short_a) =~= front_of(b, a));
}

/// Of two objects that are not empty the cheap test hashes as many bytes as both have, up to
/// 128, all of them and from the first on, and calls the two similar if and only if the hashes
/// are the same.
pub(crate) proof fn law_cheap_test_hashes_whole_fronts<'a>(
    a: &'a [u8],
    b: &'a [u8],
    similar: bool,
) -> (drawn: (&'a [u8], &'a [u8], (u64, u64)))
    requires
        call_ensures(cheap_similar, (a, b), similar),
        a@.len() > 0,
        b@.len() > 0,
    ensures
        ({
            let shorter = if a@.len() < b@.len() {
                a@.len() as int
            } else {
                b@.len() as int
            };
            let k = if shorter < 128 {
                shorter
            } else {
                128
            };
            let (front_a, front_b, hashes) = drawn;
            &&& front_a@ == a@.take(k)
            &&& front_b@ == b@.take(k)
            &&& call_ensures(calc_hash, (front_a, front_b), hashes) || call_ensures(
                calc_hash,
                (front_b, front_a),
                (hashes.1, hashes.0),
            )
            &&& similar == (hashes.0 == hashes.1)
        }),
{
    let (one, two) = (front_of(a@, b@), front_of(b@, a@));
    let hashes = choose|hashes: (u64, u64)|
        {
            &&& #[trigger] hashes_drawn(one, two, hashes)
            &&& similar == (hashes.0 == hashes.1)
        };
    if hashes_returned(one, two, hashes) {
        let (front_a, front_b) = choose|slice_a: &[u8], slice_b: &[u8]|
            {
                &&& slice_a@ == one
                &&& slice_b@ == two
                &&& #[trigger] call_ensures(calc_hash, (slice_a, slice_b), hashes)
            };
        (front_a, front_b, hashes)
    } else {
        let (front_b, front_a) = choose|slice_b: &[u8], slice_a: &[u8]|
            {
                &&& slice_b@ == two
                &&& slice_a@ == one
                &&& #[trigger] call_ensures(
                    calc_hash,
                    (slice_b, slice_a),
                    (hashes.1, hashes.0),
                )
            };
        (front_a, front_b, hashes)
    }
}

/// Whether comparing two objects can yield one answer only, as in a process, which draws
/// the keys of its hashes once.
pub open spec fn one_answer(a: Seq<u8>, b: Seq<u8>) -> bool {
    !(fronts_compared(a, b, true) && fronts_compared(a, b, false))
}

/// The cheap test says the same of two objects exchanged, and of no more of each than its
/// first 128 bytes, where comparing them has one answer.
pub proof fn law_like_questions_have_one_answer(
    a: &[u8],
    b: &[u8],
    said: bool,
    c: &[u8],
    d: &[u8],
    said_then: bool,
)
    requires
        one_answer(a@, b@),
        call_ensures(cheap_similar, (a, b), said),
        call_ensures(cheap_similar, (c, d), said_then),
        c@ == b@ && d@ == a@ || c@ == kept_front(a@) && d@ == kept_front(b@),
    ensures
        said == said_then,
{
    law_comparing_is_symmetric(a@, b@, said_then);
    law_only_fronts_matter(a@, b@, said_then);
    assert(fronts_compared(a@, b@, said));
    assert(fronts_compared(c@, d@, said_then));
}

/// The first bytes of an object, as many as are ever compared.
pub open spec fn kept_front(a: Seq<u8>) -> Seq<u8> {
    if a.len() <= PREFIX_LEN {
        a
    } else {
        a.take(PREFIX_LEN as int)
    }
}

/// Whether two fronts of `len` bytes count as the same, given their hashes.
pub fn fronts_match(len: usize, hashes: (u64, u64)) -> (matching: bool)
    ensures
        matching == (len != 0 && hashes.0 == hashes.1),
{
    len != 0 && hashes.0 == hashes.1
}

/// Whether an object of `old_len` bytes is too far in size from one of `new_len`
/// bytes to serve as its base: the shorter has less than half the length of the
/// longer.
pub fn sizes_differ(old_len: usize, new_len: usize) -> (differ: bool)
    ensures
        differ == (2 * old_len < new_len || 2 * new_len < old_len),
{
    if old_len <= new_len {
        old_len < new_len - old_len
    } else {
        new_len < old_len - new_len
    }
}

/// The hashes of two slices under `ahash::AHasher::default`, each by
/// `Hash::hash` and `Hasher::finish`. The keys of such a hasher are drawn once in
/// each process, so all that holds of every outcome is that equal slices have
/// equal hashes.
#[verifier::external_body]
pub(crate) fn calc_hash(a: &[u8], b: &[u8]) -> (hashes: (u64, u64))
    ensures
        a@ == b@ ==> hashes.0 == hashes.1,
{
    let mut hasher_a = AHasher::default();
    a.hash(&mut hasher_a);
    let mut hasher_b = AHasher::default();
    b.hash(&mut hasher_b);
    (hasher_a.finish(), hasher_b.finish())
}

} // verus!
