//! What calls that read paths, sort entries and keep them apart come to.
#![allow(unused_imports)]
use vstd::prelude::*;

use crate::buckets::{lemma_of_type_one, sort_bucket, EntryBuckets, Incoming};
use crate::error::GitError;
use crate::object::{Entry, ObjectType};
use crate::order::{magic_sort, may_precede, natural_order, sort_views, sorted_order};
use crate::order_laws::{
    law_directory_then_name_then_length, law_each_name_is_a_part, law_file_lies_in_its_directory,
    law_files_sort_by_directory_first, law_first_difference_decides_texts,
    law_first_different_part_decides, law_sorted_bucket_is_in_order, longer_first, slashed,
    without_slash,
};
use crate::path::{
    directory_order, file_name, lemma_level_directories_are_same, parent_parts, parts, PathKey,
    Placement,
};
use crate::reading::kind_number;

verus! {

/// Whether a text names a file or a directory: it is neither empty nor `.` nor `..`, and has
/// no slash in it.
pub open spec fn plain_name(text: Seq<char>) -> bool {
    &&& text.len() > 0
    &&& text != seq!['.']
    &&& text != seq!['.', '.']
    &&& without_slash(text)
}

/// Whether an entry has the path given.
pub open spec fn lies_at(entry: Incoming, path: Seq<char>) -> bool {
    entry.meta.file_path matches Some(text) && text@ == path
}

/// Reading a path gives the name behind its last slash and the directory before it: two keys
/// have level directories just where these have the same parts.
pub proof fn law_read_path(
    path: &str,
    directory: Seq<char>,
    name: Seq<char>,
    key: PathKey,
    read_name: &str,
    other_path: &str,
    other_directory: Seq<char>,
    other_name: Seq<char>,
    other_key: PathKey,
    placement: Placement,
)
    requires
        path@ == slashed(directory, name),
        other_path@ == slashed(other_directory, other_name),
        directory.len() > 0,
        other_directory.len() > 0,
        plain_name(name),
        plain_name(other_name),
        call_ensures(PathKey::new, (path,), key),
        call_ensures(PathKey::new, (other_path,), other_key),
        call_ensures(PathKey::file_name, (&key,), read_name),
        call_ensures(PathKey::compare_directories, (&key, &other_key), placement),
    ensures
        read_name@ == name,
        placement == directory_order(Some(parts(directory)), Some(parts(other_directory))),
        placement == Placement::Level <==> parts(directory) == parts(other_directory),
{
    law_file_lies_in_its_directory(directory, name);
    law_file_lies_in_its_directory(other_directory, other_name);
    let (a, b) = (parts(directory), parts(other_directory));
    if a == b {
        law_first_different_part_decides(a, Seq::empty(), Seq::empty());
        assert(a + Seq::<Seq<char>>::empty() =~= a);
    } else if placement == Placement::Level {
        lemma_level_directories_are_same(Some(a), Some(b));
    }
}

/// How two entries sort. One with a path comes before one without. Of two files, those in
/// different directories go by directory alone, and those in one directory by the natural
/// order of their names. What is level then goes by length, the longer first, and of two of
/// one length `address_order` decides.
pub proof fn law_sorted_pair(
    a: &Incoming,
    b: &Incoming,
    address_order: Placement,
    placement: Placement,
)
    requires
        call_ensures(magic_sort, (a, b, address_order), placement),
    ensures
        ({
            let by_length = if longer_first(*a, *b) == Placement::Level {
                address_order
            } else {
                longer_first(*a, *b)
            };
            placement == match (a.meta.file_path, b.meta.file_path) {
                (None, None) => by_length,
                (Some(_), None) => Placement::Before,
                (None, Some(_)) => Placement::After,
                (Some(x), Some(y)) => if parent_parts(x@) != parent_parts(y@) {
                    directory_order(parent_parts(x@), parent_parts(y@))
                } else if natural_order(file_name(x@), file_name(y@)) < 0 {
                    Placement::Before
                } else if natural_order(file_name(x@), file_name(y@)) > 0 {
                    Placement::After
                } else {
                    by_length
                },
            }
        }),
{
    law_directory_then_name_then_length(*a, *b);
}

/// Two files of one directory sort by the natural order of their names, then by length.
pub proof fn law_sorted_pair_of_one_directory(
    a: &Incoming,
    b: &Incoming,
    directory: Seq<char>,
    name_a: Seq<char>,
    name_b: Seq<char>,
    address_order: Placement,
    placement: Placement,
)
    requires
        directory.len() > 0,
        plain_name(name_a),
        plain_name(name_b),
        lies_at(*a, slashed(directory, name_a)),
        lies_at(*b, slashed(directory, name_b)),
        call_ensures(magic_sort, (a, b, address_order), placement),
    ensures
        natural_order(name_a, name_b) < 0 ==> placement == Placement::Before,
        natural_order(name_a, name_b) > 0 ==> placement == Placement::After,
        natural_order(name_a, name_b) == 0 ==> {
            &&& a.inner.data@.len() > b.inner.data@.len() ==> placement == Placement::Before
            &&& a.inner.data@.len() < b.inner.data@.len() ==> placement == Placement::After
            &&& a.inner.data@.len() == b.inner.data@.len() ==> placement == address_order
        },
{
    law_files_sort_by_directory_first(*a, *b, directory, name_a, directory, name_b);
}

/// Of two files, in directories that stand side by side in one directory however deep, that
/// comes first whose directory has the lower character where their names first differ, whatever
/// the names of the files and what they hold.
pub proof fn law_sorted_pair_of_two_directories(
    a: &Incoming,
    b: &Incoming,
    common: Seq<char>,
    stem: Seq<char>,
    rest_a: Seq<char>,
    rest_b: Seq<char>,
    name_a: Seq<char>,
    name_b: Seq<char>,
    address_order: Placement,
    placement: Placement,
)
    requires
        common.len() > 0,
        plain_name(stem + rest_a),
        plain_name(stem + rest_b),
        rest_a.len() > 0,
        rest_b.len() > 0,
        rest_a[0] < rest_b[0],
        plain_name(name_a),
        plain_name(name_b),
        lies_at(*a, slashed(slashed(common, stem + rest_a), name_a)),
        lies_at(*b, slashed(slashed(common, stem + rest_b), name_b)),
        call_ensures(magic_sort, (a, b, address_order), placement),
    ensures
        placement == Placement::Before,
{
    let (last_a, last_b) = (stem + rest_a, stem + rest_b);
    let (directory_a, directory_b) = (slashed(common, last_a), slashed(common, last_b));
    law_each_name_is_a_part(common, last_a);
    law_each_name_is_a_part(common, last_b);
    law_files_sort_by_directory_first(*a, *b, directory_a, name_a, directory_b, name_b);
    let front = parts(common);
    assert(last_a[stem.len() as int] != last_b[stem.len() as int]);
    assert(last_a != last_b);
    assert(seq![last_a][0] != seq![last_b][0]);
    law_first_different_part_decides(front, seq![last_a], seq![last_b]);
    assert(front + seq![last_a] =~= front.push(last_a));
    assert(front + seq![last_b] =~= front.push(last_b));
    assert(front.push(last_a)[front.len() as int] != front.push(last_b)[front.len() as int]);
    assert(last_a[0] != '/' && last_b[0] != '/');
    assert(seq!['/'][0] == '/');
    law_first_difference_decides_texts(stem, rest_a, rest_b);
}

/// A directory comes before those below it: of a file in a directory and one in a directory
/// below that, the first comes first.
pub proof fn law_upper_directory_comes_first(
    a: &Incoming,
    b: &Incoming,
    directory: Seq<char>,
    below: Seq<char>,
    name_a: Seq<char>,
    name_b: Seq<char>,
    address_order: Placement,
    placement: Placement,
)
    requires
        directory.len() > 0,
        plain_name(below),
        plain_name(name_a),
        plain_name(name_b),
        lies_at(*a, slashed(directory, name_a)),
        lies_at(*b, slashed(slashed(directory, below), name_b)),
        call_ensures(magic_sort, (a, b, address_order), placement),
    ensures
        placement == Placement::Before,
{
    law_each_name_is_a_part(directory, below);
    law_files_sort_by_directory_first(
        *a,
        *b,
        directory,
        name_a,
        slashed(directory, below),
        name_b,
    );
    let front = parts(directory);
    law_first_different_part_decides(front, Seq::empty(), seq![below]);
    assert(front + Seq::<Seq<char>>::empty() =~= front);
    assert(front + seq![below] =~= front.push(below));
    assert(front.len() != front.push(below).len());
}

/// Sorting lists each place of a bucket once, and goes by `magic_sort`: that never puts the
/// entry of an earlier place after that of a later one, and of two that it leaves to the
/// address the one that arrived first comes first.
pub proof fn law_sorted_places(
    bucket: &Vec<Incoming>,
    order: Vec<usize>,
    i: int,
    j: int,
    placement: Placement,
)
    requires
        call_ensures(sorted_order, (bucket,), order),
        0 <= i < j < order@.len(),
        call_ensures(
            magic_sort,
            (&bucket@[order@[i] as int], &bucket@[order@[j] as int], Placement::Level),
            placement,
        ),
    ensures
        order@.len() == bucket@.len(),
        order@[i] < bucket@.len(),
        order@[j] < bucket@.len(),
        order@[i] != order@[j],
        placement != Placement::After,
        placement == Placement::Level ==> order@[i] < order@[j],
{
    assert(order@.contains(order@[i]) && order@.contains(order@[j]));
    assert(may_precede(sort_views(bucket@), order@[i], order@[j]));
}

/// Whether `sorted` holds the entries of a bucket in the places listed: each place once, none
/// before one whose entry `magic_sort` puts first, and of two that it leaves to the address the
/// one that arrived first.
pub open spec fn sorted_right(
    bucket: Seq<Incoming>,
    sorted: Seq<Entry>,
    places: Seq<usize>,
) -> bool {
    &&& sorted.len() == bucket.len()
    &&& places.len() == bucket.len()
    &&& forall|i: int|
        0 <= i < places.len() ==> (#[trigger] places[i]) < bucket.len() && sorted[i]
            == bucket[places[i] as int].inner
    &&& forall|i: int, j: int|
        0 <= i < j < places.len() ==> {
            let here = bucket[(#[trigger] places[i]) as int];
            let later = bucket[(#[trigger] places[j]) as int];
            &&& places[i] != places[j]
            &&& forall|placement: Placement| #[trigger]
                call_ensures(magic_sort, (&here, &later, Placement::Level), placement) ==> {
                    &&& placement != Placement::After
                    &&& placement == Placement::Level ==> places[i] < places[j]
                }
        }
}

/// A sorted bucket is sorted right.
pub proof fn law_sorted_bucket(bucket: Vec<Incoming>, sorted: Vec<Entry>) -> (places: Seq<usize>)
    requires
        call_ensures(sort_bucket, (bucket,), sorted),
    ensures
        sorted_right(bucket@, sorted@, places),
{
    law_sorted_bucket_is_in_order(bucket@, sorted@)
}

/// New buckets are empty.
pub proof fn law_new_buckets(buckets: EntryBuckets)
    requires
        call_ensures(EntryBuckets::new, (), buckets),
    ensures
        buckets@.commits.len() == 0,
        buckets@.trees.len() == 0,
        buckets@.blobs.len() == 0,
        buckets@.tags.len() == 0,
{
    reveal(Seq::filter);
}

/// An entry goes to the end of the bucket of its kind, and to no other; one of none of the four
/// kinds is refused, and changes nothing.
pub proof fn law_entry_goes_to_its_bucket(
    buckets: &mut EntryBuckets,
    entry: Incoming,
    added: Result<(), GitError>,
)
    requires
        call_ensures(EntryBuckets::add_entry, (buckets, entry), added),
    ensures
        added is Ok <==> kind_number(entry.inner.obj_type) != 0,
        added is Err ==> final(buckets)@ == old(buckets)@ && added->Err_0.reason()
            == "object type `"@ + entry.inner.obj_type.spec_name()
            + "` is not supported by delta-window pack encoding"@,
        final(buckets)@.commits == (if entry.inner.obj_type == ObjectType::Commit {
            old(buckets)@.commits.push(entry)
        } else {
            old(buckets)@.commits
        }),
        final(buckets)@.trees == (if entry.inner.obj_type == ObjectType::Tree {
            old(buckets)@.trees.push(entry)
        } else {
            old(buckets)@.trees
        }),
        final(buckets)@.blobs == (if entry.inner.obj_type == ObjectType::Blob {
            old(buckets)@.blobs.push(entry)
        } else {
            old(buckets)@.blobs
        }),
        final(buckets)@.tags == (if entry.inner.obj_type == ObjectType::Tag {
            old(buckets)@.tags.push(entry)
        } else {
            old(buckets)@.tags
        }),
{
    lemma_of_type_one(entry, ObjectType::Commit);
    lemma_of_type_one(entry, ObjectType::Tree);
    lemma_of_type_one(entry, ObjectType::Blob);
    lemma_of_type_one(entry, ObjectType::Tag);
}

/// The buckets come out as commits, trees, blobs and tags.
pub proof fn law_buckets_come_out(
    buckets: EntryBuckets,
    parts: (Vec<Incoming>, Vec<Incoming>, Vec<Incoming>, Vec<Incoming>),
)
    requires
        call_ensures(EntryBuckets::into_parts, (buckets,), parts),
    ensures
        parts.0@ == buckets@.commits,
        parts.1@ == buckets@.trees,
        parts.2@ == buckets@.blobs,
        parts.3@ == buckets@.tags,
{
}

} // verus!
