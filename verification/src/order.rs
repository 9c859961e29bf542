//! The order in which objects of one kind enter the delta window. Objects that
//! are likely to resemble each other come close together: those from the same
//! directory, then those with similar names, and of two that are level the larger
//! one first.
use vstd::prelude::*;

use crate::object::{Entry, EntryMeta, MetaAttached};
use crate::path::{compare_lengths, PathKey, Placement};
#[allow(unused_imports)]
use crate::path::{
    directory_order, file_name, lemma_directory_order_chains, lemma_level_directories_are_same,
    number_order, parent_parts, parts_order, text_order,
};

verus! {

/// The placement with the two things exchanged.
pub open spec fn opposite(placement: Placement) -> Placement {
    match placement {
        Placement::Before => Placement::After,
        Placement::Level => Placement::Level,
        Placement::After => Placement::Before,
    }
}

/// The placement that the sign of a number stands for.
pub open spec fn by_sign(sign: int) -> Placement {
    if sign < 0 {
        Placement::Before
    } else if sign == 0 {
        Placement::Level
    } else {
        Placement::After
    }
}

/// How two paths sort: by directory, then by file name in natural order.
pub open spec fn path_order(a: Seq<char>, b: Seq<char>) -> Placement {
    let by_directory = directory_order(parent_parts(a), parent_parts(b));
    if by_directory != Placement::Level {
        by_directory
    } else {
        by_sign(natural_order(file_name(a), file_name(b)))
    }
}

/// What entries are sorted by: their path, if they have one, and the length of
/// their data.
pub struct SortView {
    pub path: Option<Seq<char>>,
    pub len: nat,
}

/// How two entries sort: those with a path come first, in the order of their
/// paths, and where that leaves them level the larger one comes first.
pub open spec fn view_order(a: SortView, b: SortView) -> Placement {
    let by_size = number_order(b.len, a.len);
    match (a.path, b.path) {
        (Some(path_a), Some(path_b)) => if path_order(path_a, path_b) != Placement::Level {
            path_order(path_a, path_b)
        } else {
            by_size
        },
        (Some(_), None) => Placement::Before,
        (None, Some(_)) => Placement::After,
        (None, None) => by_size,
    }
}

/// What an entry is sorted by.
pub open spec fn sort_view(entry: MetaAttached<Entry, EntryMeta>) -> SortView {
    SortView {
        path: match entry.meta.file_path {
            Some(path) => Some(path@),
            None => None,
        },
        len: entry.inner.data@.len(),
    }
}

/// What each entry of a bucket is sorted by.
pub open spec fn sort_views(bucket: Seq<MetaAttached<Entry, EntryMeta>>) -> Seq<SortView> {
    Seq::new(bucket.len(), |i: int| sort_view(bucket[i]))
}

/// Whether the `x`th entry belongs before the `y`th: it sorts before it, or the two
/// are level and it arrived first. Seen from the other entry it is the opposite.
pub open spec fn may_precede(views: Seq<SortView>, x: usize, y: usize) -> bool {
    let placement = view_order(views[x as int], views[y as int]);
    &&& placement == Placement::Before || placement == Placement::Level && x < y
    &&& view_order(views[y as int], views[x as int]) == opposite(placement)
}

/// Whether each place holds an entry that belongs before those of all later places.
pub open spec fn in_order(views: Seq<SortView>, order: Seq<usize>) -> bool {
    forall|i: int, j: int|
        0 <= i < j < order.len() ==> may_precede(views, #[trigger] order[i], #[trigger] order[j])
}

/// Whether all that comes after `b`, or is level with it, comes after `a`, or is level
/// with it, given that `b` does, and is so placed when seen from the other side too.
pub open spec fn leads(a: SortView, b: SortView) -> bool {
    forall|c: SortView| #[trigger]
        view_order(b, c) != Placement::After && view_order(a, b) != Placement::After ==> {
            &&& view_order(a, c) != Placement::After
            &&& view_order(a, b) == Placement::Before || view_order(b, c) == Placement::Before
                ==> view_order(a, c) == Placement::Before
            &&& view_order(c, a) == opposite(view_order(a, c))
        }
}

/// Whether `order` lists each number from `low` up to `high` once.
pub open spec fn lists_once(order: Seq<usize>, low: int, high: int) -> bool {
    &&& order.len() == high - low
    &&& order.no_duplicates()
    &&& forall|x: usize| order.contains(x) <==> low <= x < high
}

/// Entries with a path come before those without.
pub proof fn law_paths_come_first(views: Seq<SortView>, order: Seq<usize>, i: int, j: int)
    requires
        in_order(views, order),
        0 <= i < j < order.len(),
        views[order[j] as int].path is Some,
    ensures
        views[order[i] as int].path is Some,
{
    assert(may_precede(views, order[i], order[j]));
}

/// Entries from one directory stay together: what stands between two of them is from
/// that directory too.
pub proof fn law_directories_stay_together(
    views: Seq<SortView>,
    order: Seq<usize>,
    i: int,
    k: int,
    j: int,
)
    requires
        in_order(views, order),
        0 <= i < k < j < order.len(),
        views[order[i] as int].path is Some,
        views[order[j] as int].path is Some,
        parent_parts(views[order[i] as int].path->0) == parent_parts(
            views[order[j] as int].path->0,
        ),
    ensures
        views[order[k] as int].path is Some,
        parent_parts(views[order[k] as int].path->0) == parent_parts(
            views[order[i] as int].path->0,
        ),
{
    law_paths_come_first(views, order, k, j);
    let first = parent_parts(views[order[i] as int].path->0);
    let between = parent_parts(views[order[k] as int].path->0);
    assert(may_precede(views, order[i], order[k]));
    assert(may_precede(views, order[k], order[j]));
    lemma_directory_order_opposite(first, between);
    lemma_level_directories_are_same(first, between);
}

/// Of two entries that their paths do not tell apart, the larger one comes first, and
/// of two of one size that which arrived first.
pub proof fn law_larger_comes_first(views: Seq<SortView>, order: Seq<usize>, i: int, j: int)
    requires
        in_order(views, order),
        0 <= i < j < order.len(),
        match (views[order[i] as int].path, views[order[j] as int].path) {
            (Some(a), Some(b)) => path_order(a, b) == Placement::Level,
            (None, None) => true,
            _ => false,
        },
    ensures
        views[order[i] as int].len >= views[order[j] as int].len,
        views[order[i] as int].len == views[order[j] as int].len ==> order[i] < order[j],
{
    assert(may_precede(views, order[i], order[j]));
}

/// What stands in the places that `order` lists.
pub open spec fn permuted<A>(list: Seq<A>, order: Seq<usize>) -> Seq<A> {
    Seq::new(order.len(), |i: int| list[order[i] as int])
}

/// Listing each place once neither loses a thing nor adds one.
pub proof fn lemma_permuted_multiset<A>(list: Seq<A>, order: Seq<usize>)
    requires
        lists_once(order, 0, list.len() as int),
    ensures
        permuted(list, order).to_multiset() == list.to_multiset(),
    decreases list.len(),
{
    broadcast use vstd::seq_lib::group_to_multiset_ensures;

    if list.len() == 0 {
        assert(permuted(list, order) =~= list);
    } else {
        let n = list.len() as int;
        let last = (n - 1) as usize;
        lemma_lists_once_fits(order, n);
        assert(order.contains(last));
        let k = choose|k: int| 0 <= k < order.len() && order[k] == last;
        let fewer = order.remove(k);
        let front = list.take(n - 1);
        assert(lists_once(fewer, 0, n - 1)) by {
            assert forall|x: usize| fewer.contains(x) <==> 0 <= x < n - 1 by {
                if fewer.contains(x) {
                    let i = choose|i: int| 0 <= i < fewer.len() && fewer[i] == x;
                    let j = if i < k {
                        i
                    } else {
                        i + 1
                    };
                    assert(order[j] == x);
                    assert(order.contains(x));
                    assert(x != last);
                }
                if 0 <= x < n - 1 {
                    assert(order.contains(x));
                    let j = choose|j: int| 0 <= j < order.len() && order[j] == x;
                    if j < k {
                        assert(fewer[j] == x);
                    } else {
                        assert(fewer[j - 1] == x);
                    }
                }
            }
        }
        lemma_permuted_multiset(front, fewer);
        let all = permuted(list, order);
        assert(permuted(front, fewer) =~= all.remove(k)) by {
            assert forall|i: int| 0 <= i < fewer.len() implies permuted(front, fewer)[i]
                == all.remove(k)[i] by {
                assert(fewer.contains(fewer[i]));
            }
        }
        assert(all[k] == list[n - 1]);
        assert(all.contains(all[k]));
        assert(list =~= front.push(list[n - 1]));
        assert(all.to_multiset() =~= all.remove(k).to_multiset().insert(all[k]));
    }
}

/// As many numbers as a list of machine words holds, each once, are machine words.
proof fn lemma_lists_once_fits(order: Seq<usize>, n: int)
    requires
        lists_once(order, 0, n),
        n > 0,
    ensures
        n - 1 <= usize::MAX,
{
    if n - 1 > usize::MAX {
        let all = Seq::new((usize::MAX + 1) as nat, |i: int| i as usize);
        order.unique_seq_to_set();
        all.unique_seq_to_set();
        assert(order.to_set() =~= all.to_set()) by {
            assert forall|x: usize| all.to_set().contains(x) by {
                assert(all[x as int] == x);
            }
            assert forall|x: usize| order.to_set().contains(x) by {
                assert(order.contains(x));
            }
        }
    }
}

/// What an entry is sorted by, with its path read.
pub struct SortKey {
    path: Option<PathKey>,
    len: usize,
}

impl SortKey {
    /// Whether the key was read from an entry with the given view.
    pub closed spec fn reads(self, view: SortView) -> bool {
        &&& self.len == view.len
        &&& match (self.path, view.path) {
            (Some(key), Some(path)) => key.directory() == parent_parts(path) && key.name()
                == file_name(path),
            (None, None) => true,
            _ => false,
        }
    }

    /// What an entry is sorted by.
    pub fn new(entry: &MetaAttached<Entry, EntryMeta>) -> (key: SortKey)
        ensures
            key.reads(sort_view(*entry)),
    {
        let path: Option<PathKey> = match &entry.meta.file_path {
            Some(path) => Some(PathKey::new(path.as_str())),
            None => None,
        };
        SortKey { path, len: entry.inner.data.len() }
    }

    /// How the entries of two keys sort.
    fn compare(
        &self,
        other: &SortKey,
        Ghost(view): Ghost<SortView>,
        Ghost(other_view): Ghost<SortView>,
    ) -> (placement: Placement)
        requires
            self.reads(view),
            other.reads(other_view),
        ensures
            placement == view_order(view, other_view),
            view_order(other_view, view) == opposite(placement),
            leads(view, other_view),
            leads(other_view, view),
    {
        match (&self.path, &other.path) {
            (Some(a), Some(b)) => {
                let by_directory: Placement = a.compare_directories(b);
                proof {
                    lemma_directory_order_opposite(a.directory(), b.directory());
                }
                if by_directory != Placement::Level {
                    proof {
                        lemma_leads(view, other_view);
                        lemma_leads(other_view, view);
                    }
                    return by_directory;
                }
                let by_name: i8 = natural_compare(a.file_name(), b.file_name());
                proof {
                    lemma_leads(view, other_view);
                    lemma_leads(other_view, view);
                }
                if by_name < 0 {
                    return Placement::Before;
                }
                if by_name > 0 {
                    return Placement::After;
                }
            },
            (Some(_), None) => {
                return Placement::Before;
            },
            (None, Some(_)) => {
                return Placement::After;
            },
            (None, None) => {},
        }
        compare_lengths(other.len, self.len)
    }
}

/// How two entries sort. Where path and size leave them level, `address_order`
/// decides: how the places where the two are held sort.
pub fn magic_sort(
    a: &MetaAttached<Entry, EntryMeta>,
    b: &MetaAttached<Entry, EntryMeta>,
    address_order: Placement,
) -> (placement: Placement)
    ensures
        placement == (if view_order(sort_view(*a), sort_view(*b)) == Placement::Level {
            address_order
        } else {
            view_order(sort_view(*a), sort_view(*b))
        }),
        view_order(sort_view(*b), sort_view(*a)) == opposite(
            view_order(sort_view(*a), sort_view(*b)),
        ),
        leads(sort_view(*a), sort_view(*b)),
{
    let ghost view_a = sort_view(*a);
    let ghost view_b = sort_view(*b);
    let placement: Placement = SortKey::new(a).compare(
        &SortKey::new(b),
        Ghost(view_a),
        Ghost(view_b),
    );
    if placement == Placement::Level {
        address_order
    } else {
        placement
    }
}

/// Sorts a bucket by `magic_sort`, entries that are level in the order in which they
/// arrived: the places in the bucket of the entries in sorted order.
pub fn sorted_order(bucket: &Vec<MetaAttached<Entry, EntryMeta>>) -> (order: Vec<usize>)
    ensures
        lists_once(order@, 0, bucket@.len() as int),
        in_order(sort_views(bucket@), order@),
{
    let mut keys: Vec<SortKey> = Vec::with_capacity(bucket.len());
    for i in 0..bucket.len()
        invariant
            keys@.len() == i,
            forall|j: int| 0 <= j < i ==> #[trigger] keys@[j].reads(sort_views(bucket@)[j]),
    {
        keys.push(SortKey::new(&bucket[i]));
    }
    sort_range(&keys, 0, bucket.len(), Ghost(sort_views(bucket@)))
}

/// The numbers from `low` up to `high`, sorted by the keys that they stand for.
fn sort_range(
    keys: &Vec<SortKey>,
    low: usize,
    high: usize,
    Ghost(views): Ghost<Seq<SortView>>,
) -> (order: Vec<usize>)
    requires
        low <= high <= keys@.len(),
        keys@.len() == views.len(),
        forall|j: int| 0 <= j < views.len() ==> #[trigger] keys@[j].reads(views[j]),
    ensures
        lists_once(order@, low as int, high as int),
        in_order(views, order@),
    decreases high - low,
{
    if high - low <= 1 {
        let mut order: Vec<usize> = Vec::new();
        if low < high {
            order.push(low);
            assert(order@[0] == low);
        }
        return order;
    }
    let middle: usize = low + (high - low) / 2;
    let left: Vec<usize> = sort_range(keys, low, middle, Ghost(views));
    let right: Vec<usize> = sort_range(keys, middle, high, Ghost(views));
    merge(
        keys,
        &left,
        &right,
        Ghost(views),
        Ghost(low as int),
        Ghost(middle as int),
        Ghost(high as int),
    )
}

/// Merges two sorted lists, the first of which lists the smaller numbers.
fn merge(
    keys: &Vec<SortKey>,
    left: &Vec<usize>,
    right: &Vec<usize>,
    Ghost(views): Ghost<Seq<SortView>>,
    Ghost(low): Ghost<int>,
    Ghost(middle): Ghost<int>,
    Ghost(high): Ghost<int>,
) -> (order: Vec<usize>)
    requires
        0 <= low <= middle <= high <= keys@.len(),
        keys@.len() == views.len(),
        forall|j: int| 0 <= j < views.len() ==> #[trigger] keys@[j].reads(views[j]),
        lists_once(left@, low, middle),
        lists_once(right@, middle, high),
        in_order(views, left@),
        in_order(views, right@),
    ensures
        lists_once(order@, low, high),
        in_order(views, order@),
{
    let mut order: Vec<usize> = Vec::with_capacity(left.len());
    let mut i: usize = 0;
    let mut j: usize = 0;
    while i < left.len() || j < right.len()
        invariant
            0 <= low <= middle <= high <= keys@.len(),
            keys@.len() == views.len(),
            forall|j: int| 0 <= j < views.len() ==> #[trigger] keys@[j].reads(views[j]),
            lists_once(left@, low, middle),
            lists_once(right@, middle, high),
            in_order(views, left@),
            in_order(views, right@),
            i <= left@.len(),
            j <= right@.len(),
            order@.len() == i + j,
            in_order(views, order@),
            forall|m: int, k: int|
                0 <= m < order@.len() && i <= k < left@.len() ==> may_precede(
                    views,
                    #[trigger] order@[m],
                    #[trigger] left@[k],
                ),
            forall|m: int, k: int|
                0 <= m < order@.len() && j <= k < right@.len() ==> may_precede(
                    views,
                    #[trigger] order@[m],
                    #[trigger] right@[k],
                ),
            order@.no_duplicates(),
            forall|x: usize|
                #[trigger] order@.contains(x) <==> left@.take(i as int).contains(x)
                    || right@.take(j as int).contains(x),
        decreases left@.len() + right@.len() - i - j,
    {
        let ghost before = order@;
        let take_left: bool = if i < left.len() && j < right.len() {
            assert(left@.contains(left@[i as int]));
            assert(right@.contains(right@[j as int]));
            let placement: Placement = keys[left[i]].compare(
                &keys[right[j]],
                Ghost(views[left@[i as int] as int]),
                Ghost(views[right@[j as int] as int]),
            );
            placement != Placement::After
        } else {
            i < left.len()
        };
        if take_left {
            proof {
                let next = left@[i as int];
                assert(left@.contains(next));
                lemma_take_contains(left@, i as int);
                assert forall|k: int| j <= k < right@.len() implies may_precede(
                    views,
                    next,
                    #[trigger] right@[k],
                ) by {
                    assert(right@.contains(right@[j as int]));
                    if k > j {
                        lemma_may_precede_chains(views, next, right@[j as int], right@[k]);
                    }
                }
                assert(!right@.take(j as int).contains(next)) by {
                    if right@.take(j as int).contains(next) {
                        assert(right@.contains(next));
                    }
                }
                assert(!left@.take(i as int).contains(next)) by {
                    if left@.take(i as int).contains(next) {
                        let k = choose|k: int|
                            0 <= k < i && left@.take(i as int)[k] == next;
                        assert(left@[k] == left@[i as int]);
                    }
                }
            }
            order.push(left[i]);
            i = i + 1;
        } else {
            proof {
                let next = right@[j as int];
                assert(right@.contains(next));
                lemma_take_contains(right@, j as int);
                assert forall|k: int| i <= k < left@.len() implies may_precede(
                    views,
                    next,
                    #[trigger] left@[k],
                ) by {
                    if k > i {
                        lemma_may_precede_chains(views, next, left@[i as int], left@[k]);
                    }
                }
                assert(!left@.take(i as int).contains(next)) by {
                    if left@.take(i as int).contains(next) {
                        assert(left@.contains(next));
                    }
                }
                assert(!right@.take(j as int).contains(next)) by {
                    if right@.take(j as int).contains(next) {
                        let k = choose|k: int|
                            0 <= k < j && right@.take(j as int)[k] == next;
                        assert(right@[k] == right@[j as int]);
                    }
                }
            }
            order.push(right[j]);
            j = j + 1;
        }
        proof {
            let next = order@.last();
            assert(order@ =~= before.push(next));
            lemma_push_contains(before, next);
            assert(!before.contains(next));
            assert forall|m: int, n: int|
                0 <= m < order@.len() && 0 <= n < order@.len() && m != n implies order@[m]
                != order@[n] by {
                if m == before.len() {
                    assert(before.contains(before[n]));
                } else if n == before.len() {
                    assert(before.contains(before[m]));
                }
            }
        }
    }
    assert(left@.take(i as int) =~= left@);
    assert(right@.take(j as int) =~= right@);
    order
}

/// What a longer front of a list holds beyond a shorter one.
proof fn lemma_take_contains(list: Seq<usize>, i: int)
    requires
        0 <= i < list.len(),
    ensures
        forall|x: usize|
            #[trigger] list.take(i + 1).contains(x) <==> list.take(i).contains(x) || x == list[i],
{
    assert(list.take(i + 1) =~= list.take(i).push(list[i]));
    lemma_push_contains(list.take(i), list[i]);
}

/// What a list holds after one number more.
proof fn lemma_push_contains(list: Seq<usize>, next: usize)
    ensures
        forall|x: usize|
            #[trigger] list.push(next).contains(x) <==> list.contains(x) || x == next,
{
    assert forall|x: usize| #[trigger] list.push(next).contains(x) <==> list.contains(x) || x
        == next by {
        if list.contains(x) {
            let k = choose|k: int| 0 <= k < list.len() && list[k] == x;
            assert(list.push(next)[k] == x);
        }
        if x == next {
            assert(list.push(next)[list.len() as int] == x);
        }
        if list.push(next).contains(x) {
            let k = choose|k: int| 0 <= k < list.push(next).len() && list.push(next)[k] == x;
            if k < list.len() {
                assert(list[k] == x);
            }
        }
    }
}

/// All that belongs after `y` belongs after `x`, if `y` does.
proof fn lemma_may_precede_chains(views: Seq<SortView>, x: usize, y: usize, z: usize)
    requires
        may_precede(views, x, y),
        may_precede(views, y, z),
        leads(views[x as int], views[y as int]),
    ensures
        may_precede(views, x, z),
{
    assert(view_order(views[y as int], views[z as int]) != Placement::After);
}

/// A view leads another if the natural order leads from name to name where their
/// directories are level.
proof fn lemma_leads(a: SortView, b: SortView)
    requires
        a.path is Some && b.path is Some && directory_order(
            parent_parts(a.path->0),
            parent_parts(b.path->0),
        ) == Placement::Level ==> natural_leads(file_name(a.path->0), file_name(b.path->0)),
    ensures
        leads(a, b),
{
    assert forall|c: SortView| #[trigger]
        view_order(b, c) != Placement::After && view_order(a, b) != Placement::After implies {
        &&& view_order(a, c) != Placement::After
        &&& view_order(a, b) == Placement::Before || view_order(b, c) == Placement::Before
            ==> view_order(a, c) == Placement::Before
        &&& view_order(c, a) == opposite(view_order(a, c))
    } by {
        if a.path is Some && b.path is Some && c.path is Some {
            let (x, y, z) = (a.path->0, b.path->0, c.path->0);
            let (dx, dy, dz) = (parent_parts(x), parent_parts(y), parent_parts(z));
            assert(directory_order(dx, dy) != Placement::After);
            assert(directory_order(dy, dz) != Placement::After);
            lemma_directory_order_chains(dx, dy, dz);
            lemma_directory_order_opposite(dx, dz);
            if directory_order(dx, dy) == Placement::Level && directory_order(dy, dz)
                == Placement::Level {
                lemma_level_directories_are_same(dx, dy);
                let (nx, ny, nz) = (file_name(x), file_name(y), file_name(z));
                assert(natural_order(nx, ny) <= 0);
                assert(natural_order(ny, nz) <= 0);
            }
        }
    }
}

/// Exchanging two texts turns their order round.
proof fn lemma_text_order_opposite(a: Seq<char>, b: Seq<char>)
    ensures
        text_order(b, a) == opposite(text_order(a, b)),
    decreases a.len(),
{
    if a.len() > 0 && b.len() > 0 && a[0] == b[0] {
        lemma_text_order_opposite(a.skip(1), b.skip(1));
    }
}

/// Exchanging two lists of parts turns their order round.
proof fn lemma_parts_order_opposite(a: Seq<Seq<char>>, b: Seq<Seq<char>>)
    ensures
        parts_order(b, a) == opposite(parts_order(a, b)),
    decreases a.len(),
{
    if a.len() > 0 && b.len() > 0 {
        lemma_text_order_opposite(a[0], b[0]);
        lemma_parts_order_opposite(a.skip(1), b.skip(1));
    }
}

/// Exchanging two directories turns their order round.
proof fn lemma_directory_order_opposite(
    a: Option<Seq<Seq<char>>>,
    b: Option<Seq<Seq<char>>>,
)
    ensures
        directory_order(b, a) == opposite(directory_order(a, b)),
{
    if a is Some && b is Some {
        lemma_parts_order_opposite(a->0, b->0);
    }
}

/// How `natord::compare` places two texts: below zero if the first comes first,
/// above zero if the second does.
pub uninterp spec fn natural_order(left: Seq<char>, right: Seq<char>) -> int;

/// Whether the natural order leads from one text to another: all that comes after the
/// second, or is level with it, stands so to the first, given that the second does, and
/// the first stands the opposite way to it.
pub open spec fn natural_leads(left: Seq<char>, right: Seq<char>) -> bool {
    forall|next: Seq<char>| #[trigger]
        natural_order(right, next) <= 0 && natural_order(left, right) <= 0 ==> {
            &&& natural_order(left, next) <= 0
            &&& natural_order(left, right) < 0 || natural_order(right, next) < 0
                ==> natural_order(left, next) < 0
            &&& natural_order(next, left) == -natural_order(left, next)
        }
}

/// Compares with `natord::compare`. The contract names the outcome. It says that
/// exchanging the texts turns it round: every branch of the comparison treats its two
/// sides alike. And it says that the outcomes chain, as those of an order do: the
/// comparison goes from left to right by characters and by whole runs of digits,
/// leaving white space out, up to the first place where the texts differ. What can
/// stand there is in one order: characters below the digits, runs with a leading zero
/// by their digits, other runs by length and then by their digits, other characters.
#[verifier::external_body]
fn natural_compare(left: &str, right: &str) -> (sign: i8)
    ensures
        sign == natural_order(left@, right@),
        natural_order(right@, left@) == -sign,
        sign <= 0 ==> natural_leads(left@, right@),
        sign >= 0 ==> natural_leads(right@, left@),
{
    match natord::compare(left, right) {
        std::cmp::Ordering::Less => -1,
        std::cmp::Ordering::Equal => 0,
        std::cmp::Ordering::Greater => 1,
    }
}

} // verus!
