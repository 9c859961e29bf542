//! Sorting entries apart by kind, and each kind into the order in which it enters
//! the delta window.
use vstd::prelude::*;

use crate::error::GitError;
use crate::object::{Entry, EntryMeta, MetaAttached, ObjectType};
use crate::order::sorted_order;
#[allow(unused_imports)]
use crate::order::{in_order, lists_once, sort_views};

verus! {

/// An entry with what is known of it.
pub type Incoming = MetaAttached<Entry, EntryMeta>;

/// Whether the delta window takes objects of a kind.
pub open spec fn windowed(obj_type: ObjectType) -> bool {
    ||| obj_type == ObjectType::Commit
    ||| obj_type == ObjectType::Tree
    ||| obj_type == ObjectType::Blob
    ||| obj_type == ObjectType::Tag
}

/// Why the delta window refuses an object.
pub open spec fn unsupported_reason(obj_type: ObjectType) -> Seq<char> {
    "object type `"@ + obj_type.spec_name()
        + "` is not supported by delta-window pack encoding"@
}

/// The entries of a kind, in the order in which they arrived.
pub open spec fn of_type(entries: Seq<Incoming>, obj_type: ObjectType) -> Seq<Incoming> {
    entries.filter(|entry: Incoming| entry.inner.obj_type == obj_type)
}

/// The entries in the places that `order` lists.
pub open spec fn arranged(bucket: Seq<Incoming>, order: Seq<usize>) -> Seq<Entry> {
    Seq::new(order.len(), |i: int| bucket[order[i] as int].inner)
}

/// Whether `sorted` holds the entries of a bucket in sorted order.
pub open spec fn sorted_from(bucket: Seq<Incoming>, sorted: Seq<Entry>) -> bool {
    exists|order: Seq<usize>|
        {
            &&& lists_once(order, 0, bucket.len() as int)
            &&& in_order(sort_views(bucket), order)
            &&& sorted == #[trigger] arranged(bucket, order)
        }
}

/// The entries of a pack, apart by kind.
pub struct EntryBuckets {
    commits: Vec<Incoming>,
    trees: Vec<Incoming>,
    blobs: Vec<Incoming>,
    tags: Vec<Incoming>,
}

/// What the buckets hold.
pub ghost struct BucketsView {
    pub commits: Seq<Incoming>,
    pub trees: Seq<Incoming>,
    pub blobs: Seq<Incoming>,
    pub tags: Seq<Incoming>,
}

/// The entries apart by kind.
pub open spec fn apart(entries: Seq<Incoming>) -> BucketsView {
    BucketsView {
        commits: of_type(entries, ObjectType::Commit),
        trees: of_type(entries, ObjectType::Tree),
        blobs: of_type(entries, ObjectType::Blob),
        tags: of_type(entries, ObjectType::Tag),
    }
}

/// Whether all entries of a bucket are of one kind.
pub open spec fn all_of_type(bucket: Seq<Incoming>, obj_type: ObjectType) -> bool {
    forall|i: int| 0 <= i < bucket.len() ==> (#[trigger] bucket[i]).inner.obj_type == obj_type
}

impl BucketsView {
    /// Whether each bucket holds entries of its kind only.
    pub open spec fn typed(self) -> bool {
        &&& all_of_type(self.commits, ObjectType::Commit)
        &&& all_of_type(self.trees, ObjectType::Tree)
        &&& all_of_type(self.blobs, ObjectType::Blob)
        &&& all_of_type(self.tags, ObjectType::Tag)
    }
}

impl View for EntryBuckets {
    type V = BucketsView;

    closed spec fn view(&self) -> BucketsView {
        BucketsView {
            commits: self.commits@,
            trees: self.trees@,
            blobs: self.blobs@,
            tags: self.tags@,
        }
    }
}

impl EntryBuckets {
    /// Empty buckets.
    pub fn new() -> (buckets: EntryBuckets)
        ensures
            buckets@ == apart(Seq::empty()),
            buckets@.typed(),
    {
        let buckets = EntryBuckets {
            commits: Vec::new(),
            trees: Vec::new(),
            blobs: Vec::new(),
            tags: Vec::new(),
        };
        proof {
            reveal(Seq::filter);
            assert(buckets.commits@ =~= of_type(Seq::empty(), ObjectType::Commit));
            assert(buckets.trees@ =~= of_type(Seq::empty(), ObjectType::Tree));
            assert(buckets.blobs@ =~= of_type(Seq::empty(), ObjectType::Blob));
            assert(buckets.tags@ =~= of_type(Seq::empty(), ObjectType::Tag));
        }
        buckets
    }

    /// Puts an entry into the bucket of its kind. An entry of a kind that the delta
    /// window does not take is refused.
    pub fn add_entry(&mut self, entry: Incoming) -> (added: Result<(), GitError>)
        ensures
            added is Ok <==> windowed(entry.inner.obj_type),
            added matches Err(error) ==> error.reason() == unsupported_reason(
                entry.inner.obj_type,
            ) && final(self)@ == old(self)@,
            added is Ok ==> {
                let one = apart(seq![entry]);
                &&& final(self)@.commits == old(self)@.commits + one.commits
                &&& final(self)@.trees == old(self)@.trees + one.trees
                &&& final(self)@.blobs == old(self)@.blobs + one.blobs
                &&& final(self)@.tags == old(self)@.tags + one.tags
            },
            old(self)@.typed() ==> final(self)@.typed(),
    {
        proof {
            lemma_of_type_one(entry, ObjectType::Commit);
            lemma_of_type_one(entry, ObjectType::Tree);
            lemma_of_type_one(entry, ObjectType::Blob);
            lemma_of_type_one(entry, ObjectType::Tag);
        }
        match entry.inner.obj_type {
            ObjectType::Commit => {
                self.commits.push(entry);
            },
            ObjectType::Tree => {
                self.trees.push(entry);
            },
            ObjectType::Blob => {
                self.blobs.push(entry);
            },
            ObjectType::Tag => {
                self.tags.push(entry);
            },
            _ => {
                return Err(
                    GitError::pack_encode_quoting(
                        "object type `",
                        entry.inner.obj_type.name(),
                        "` is not supported by delta-window pack encoding",
                    ),
                );
            },
        }
        Ok(())
    }

    /// The buckets: commits, trees, blobs and tags.
    pub fn into_parts(self) -> (parts: (Vec<Incoming>, Vec<Incoming>, Vec<Incoming>, Vec<Incoming>))
        ensures
            parts.0@ == self@.commits,
            parts.1@ == self@.trees,
            parts.2@ == self@.blobs,
            parts.3@ == self@.tags,
    {
        (self.commits, self.trees, self.blobs, self.tags)
    }
}

/// Sorts a bucket.
pub fn sort_bucket(bucket: Vec<Incoming>) -> (sorted: Vec<Entry>)
    ensures
        sorted_from(bucket@, sorted@),
{
    let order: Vec<usize> = sorted_order(&bucket);
    let ghost all = bucket@;
    let mut places: Vec<Option<Entry>> = Vec::with_capacity(bucket.len());
    for entry in it: bucket
        invariant
            it.seq() == all,
            places@.len() == it.index(),
            forall|i: int| 0 <= i < places@.len() ==> places@[i] == Some(all[i].inner),
    {
        places.push(Some(entry.inner));
    }
    let mut sorted: Vec<Entry> = Vec::with_capacity(order.len());
    for i in 0..order.len()
        invariant
            lists_once(order@, 0, all.len() as int),
            places@.len() == all.len(),
            sorted@ == arranged(all, order@.take(i as int)),
            forall|k: int|
                #![trigger places@[k]]
                0 <= k < all.len() && !order@.take(i as int).contains(k as usize) ==> places@[k]
                    == Some(all[k].inner),
    {
        let ghost next = order@[i as int];
        assert(order@.contains(next));
        assert(!order@.take(i as int).contains(next)) by {
            if order@.take(i as int).contains(next) {
                let k = choose|k: int| 0 <= k < i && order@.take(i as int)[k] == next;
                assert(order@[k] == order@[i as int]);
            }
        }
        assert(order@.take(i + 1) =~= order@.take(i as int).push(next));
        let taken: Option<Entry> = places[order[i]].take();
        assert(taken == Some(all[next as int].inner));
        if let Some(entry) = taken {
            sorted.push(entry);
        }
        assert(sorted@ =~= arranged(all, order@.take(i + 1)));
        assert forall|k: int|
            #![trigger places@[k]]
            0 <= k < all.len() && !order@.take(i + 1).contains(k as usize) implies places@[k]
            == Some(all[k].inner) by {
            let longer = order@.take(i + 1);
            assert(longer[i as int] == next);
            if order@.take(i as int).contains(k as usize) {
                let m = choose|m: int| 0 <= m < i && order@.take(i as int)[m] == k as usize;
                assert(longer[m] == k as usize);
            }
            assert(k != next) by {
                if k == next {
                    assert(longer.contains(k as usize));
                }
            }
        }
    }
    assert(order@.take(order@.len() as int) =~= order@);
    assert(sorted@ == arranged(all, order@));
    sorted
}

/// The entries of a kind in a list of one.
pub proof fn lemma_of_type_one(entry: Incoming, obj_type: ObjectType)
    ensures
        of_type(seq![entry], obj_type) == (if entry.inner.obj_type == obj_type {
            seq![entry]
        } else {
            Seq::empty()
        }),
{
    reveal_with_fuel(Seq::filter, 2);
    assert(seq![entry].drop_last() =~= Seq::<Incoming>::empty());
    assert(of_type(seq![entry], obj_type) =~= (if entry.inner.obj_type == obj_type {
        seq![entry]
    } else {
        Seq::empty()
    }));
}

/// What the buckets hold after one entry more.
pub proof fn lemma_apart_grows(entries: Seq<Incoming>, entry: Incoming)
    ensures
        apart(entries.push(entry)) == (BucketsView {
            commits: apart(entries).commits + apart(seq![entry]).commits,
            trees: apart(entries).trees + apart(seq![entry]).trees,
            blobs: apart(entries).blobs + apart(seq![entry]).blobs,
            tags: apart(entries).tags + apart(seq![entry]).tags,
        }),
{
    lemma_of_type_grows(entries, entry, ObjectType::Commit);
    lemma_of_type_grows(entries, entry, ObjectType::Tree);
    lemma_of_type_grows(entries, entry, ObjectType::Blob);
    lemma_of_type_grows(entries, entry, ObjectType::Tag);
}

/// What the bucket of a kind holds after one entry more.
proof fn lemma_of_type_grows(entries: Seq<Incoming>, entry: Incoming, obj_type: ObjectType)
    ensures
        of_type(entries.push(entry), obj_type) == of_type(entries, obj_type) + of_type(
            seq![entry],
            obj_type,
        ),
{
    lemma_of_type_one(entry, obj_type);
    reveal(Seq::filter);
    assert(entries.push(entry).drop_last() =~= entries);
    assert(of_type(entries.push(entry), obj_type) =~= of_type(entries, obj_type) + of_type(
        seq![entry],
        obj_type,
    ));
}

} // verus!
