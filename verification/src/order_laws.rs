//! What reading and sorting paths comes to, in terms of the paths themselves.
#![allow(unused_imports)]
use vstd::prelude::*;

use crate::buckets::{arranged, sorted_from, Incoming};
use crate::object::Entry;
use crate::order::{
    in_order, lists_once, may_precede, natural_order, sort_view, sort_views, view_order,
};
use crate::path::{
    directory_order, file_name, lemma_level_directories_are_same, names_part, naming_pieces,
    parent_parts, part_order, parts, parts_order, pieces, text_order, Placement,
};

verus! {

/// Whether a text holds no slash.
pub open spec fn without_slash(text: Seq<char>) -> bool {
    forall|i: int| 0 <= i < text.len() ==> #[trigger] text[i] != '/'
}

/// A text, a slash and another text.
pub open spec fn slashed(front: Seq<char>, back: Seq<char>) -> Seq<char> {
    front + seq!['/'] + back
}

/// The pieces of a path that ends in a slash and a piece.
proof fn lemma_last_piece(front: Seq<char>, piece: Seq<char>)
    requires
        without_slash(piece),
    ensures
        pieces(slashed(front, piece)) == pieces(front).push(piece),
    decreases piece.len(),
{
    let path = slashed(front, piece);
    if piece.len() == 0 {
        assert(path.drop_last() =~= front);
        assert(piece =~= Seq::<char>::empty());
    } else {
        let shorter = piece.drop_last();
        assert(without_slash(shorter)) by {
            assert forall|i: int| 0 <= i < shorter.len() implies #[trigger] shorter[i] != '/' by {
                assert(piece[i] != '/');
            }
        }
        lemma_last_piece(front, shorter);
        assert(path.drop_last() =~= slashed(front, shorter));
        assert(piece[piece.len() - 1] != '/');
        assert(path.last() == piece.last());
        let before = pieces(front).push(shorter);
        assert(before.drop_last() =~= pieces(front));
        assert(shorter.push(piece.last()) =~= piece);
    }
}

/// A path without a slash is one piece.
proof fn lemma_one_piece(piece: Seq<char>)
    requires
        without_slash(piece),
    ensures
        pieces(piece) == seq![piece],
    decreases piece.len(),
{
    if piece.len() == 0 {
        assert(piece =~= Seq::<char>::empty());
    } else {
        let shorter = piece.drop_last();
        assert(without_slash(shorter)) by {
            assert forall|i: int| 0 <= i < shorter.len() implies #[trigger] shorter[i] != '/' by {
                assert(piece[i] != '/');
            }
        }
        lemma_one_piece(shorter);
        assert(piece[piece.len() - 1] != '/');
        assert(shorter.push(piece.last()) =~= piece);
        assert(pieces(piece) =~= seq![piece]);
    }
}

/// There is always a piece.
proof fn lemma_some_piece(path: Seq<char>)
    ensures
        pieces(path).len() > 0,
    decreases path.len(),
{
    if path.len() > 0 {
        lemma_some_piece(path.drop_last());
    }
}

/// Which of the first pieces name a part does not depend on those behind.
proof fn lemma_naming_front(list: Seq<Seq<char>>, piece: Seq<char>, n: nat)
    requires
        n <= list.len(),
    ensures
        naming_pieces(list.push(piece), n) == naming_pieces(list, n),
    decreases n,
{
    if n > 0 {
        lemma_naming_front(list, piece, (n - 1) as nat);
    }
}

/// How a path ends decides its parts. Behind a slash, an empty piece and `.` add no part,
/// and any other piece adds itself; before the first slash of an absolute path stands
/// nothing but the root. So the parts of a path are all names in it, at any depth.
pub proof fn law_each_name_is_a_part(front: Seq<char>, piece: Seq<char>)
    requires
        without_slash(piece),
    ensures
        ({
            let before = if front.len() == 0 {
                seq![seq!['/']]
            } else {
                parts(front)
            };
            parts(slashed(front, piece)) == if piece.len() == 0 || piece == seq!['.'] {
                before
            } else {
                before.push(piece)
            }
        }),
{
    let path = slashed(front, piece);
    let list = pieces(front);
    lemma_last_piece(front, piece);
    lemma_some_piece(front);
    let n = list.len();
    lemma_naming_front(list, piece, n);
    assert(list.push(piece)[n as int] == piece);
    if front.len() == 0 {
        assert(path[0] == '/');
        assert(list =~= seq![Seq::<char>::empty()]);
        assert(naming_pieces(list, 0) =~= Seq::<Seq<char>>::empty());
        assert(!names_part(list, 0));
        assert(naming_pieces(list, 1) =~= Seq::<Seq<char>>::empty());
    } else {
        assert(path[0] == front[0]);
    }
    let before = if front.len() == 0 {
        seq![seq!['/']]
    } else {
        parts(front)
    };
    assert(parts(path) =~= if piece.len() == 0 || piece == seq!['.'] {
        before
    } else {
        before.push(piece)
    });
}

/// A path without a slash is one part, and the empty path has none.
pub proof fn law_name_alone_is_one_part(piece: Seq<char>)
    requires
        without_slash(piece),
    ensures
        parts(piece) == if piece.len() == 0 {
            Seq::<Seq<char>>::empty()
        } else {
            seq![piece]
        },
{
    lemma_one_piece(piece);
    let list = seq![piece];
    assert(naming_pieces(list, 0) =~= Seq::<Seq<char>>::empty());
    assert(list[0] == piece);
    if piece.len() > 0 {
        assert(piece[0] != '/');
    }
    assert(parts(piece) =~= if piece.len() == 0 {
        Seq::<Seq<char>>::empty()
    } else {
        seq![piece]
    });
}

/// The directory of a path is all of its parts but the last, at any depth. The root and the
/// path without parts have none.
pub proof fn law_directory_is_all_but_the_last_part(path: Seq<char>)
    ensures
        parent_parts(path) is None <==> parts(path).len() == 0 || parts(path).last() == seq!['/'],
        parent_parts(path) matches Some(directory) ==> directory.push(parts(path).last()) == parts(
            path,
        ),
{
    if parts(path).len() > 0 {
        assert(parts(path).drop_last().push(parts(path).last()) =~= parts(path));
    }
}

/// The file name of a path is its last part, unless that is the root, `.` or `..`.
pub proof fn law_file_name_is_the_last_part(path: Seq<char>)
    ensures
        file_name(path) == if parts(path).len() == 0 || parts(path).last() == seq!['/'] || parts(
            path,
        ).last() == seq!['.'] || parts(path).last() == seq!['.', '.'] {
            Seq::<char>::empty()
        } else {
            parts(path).last()
        },
{
}

/// A file lies in its directory: a path made of a directory, a slash and a name has the
/// parts of that directory as its directory, and the name as its file name.
pub proof fn law_file_lies_in_its_directory(directory: Seq<char>, name: Seq<char>)
    requires
        directory.len() > 0,
        without_slash(name),
        name.len() > 0,
        name != seq!['.'],
        name != seq!['.', '.'],
    ensures
        parent_parts(slashed(directory, name)) == Some(parts(directory)),
        file_name(slashed(directory, name)) == name,
{
    law_each_name_is_a_part(directory, name);
    let path = slashed(directory, name);
    assert(parts(path).last() == name);
    assert(name[0] != '/');
    assert(name != seq!['/']) by {
        assert(seq!['/'][0] == '/');
    }
    law_directory_is_all_but_the_last_part(path);
    assert(parts(path).drop_last() =~= parts(directory));
}

/// The first characters that differ decide between two texts, and of a text and a longer one
/// that begins with it the shorter comes first.
pub proof fn law_first_difference_decides_texts(
    common: Seq<char>,
    rest_a: Seq<char>,
    rest_b: Seq<char>,
)
    requires
        rest_a.len() > 0 && rest_b.len() > 0 ==> rest_a[0] != rest_b[0],
    ensures
        text_order(common + rest_a, common + rest_b) == (if rest_a.len() == 0 && rest_b.len()
            == 0 {
            Placement::Level
        } else if rest_a.len() == 0 {
            Placement::Before
        } else if rest_b.len() == 0 {
            Placement::After
        } else if rest_a[0] < rest_b[0] {
            Placement::Before
        } else {
            Placement::After
        }),
    decreases common.len(),
{
    let (a, b) = (common + rest_a, common + rest_b);
    if common.len() == 0 {
        assert(a =~= rest_a);
        assert(b =~= rest_b);
    } else {
        law_first_difference_decides_texts(common.skip(1), rest_a, rest_b);
        assert(a.skip(1) =~= common.skip(1) + rest_a);
        assert(b.skip(1) =~= common.skip(1) + rest_b);
        assert(a[0] == common[0] && b[0] == common[0]);
    }
}

/// Where a part stands among the others before its text counts.
pub open spec fn standing(part: Seq<char>) -> int {
    if part == seq!['/'] {
        0
    } else if part == seq!['.'] {
        1
    } else if part == seq!['.', '.'] {
        2
    } else {
        3
    }
}

/// A text is level with itself.
proof fn lemma_text_is_level_with_itself(text: Seq<char>)
    ensures
        text_order(text, text) == Placement::Level,
{
    law_first_difference_decides_texts(text, Seq::empty(), Seq::empty());
    assert(text + Seq::<char>::empty() =~= text);
}

/// The first parts that differ decide between two directories: the root comes before `.`,
/// that before `..`, and that before names, which go by their texts. Of a directory and one
/// below it the upper comes first.
pub proof fn law_first_different_part_decides(
    common: Seq<Seq<char>>,
    rest_a: Seq<Seq<char>>,
    rest_b: Seq<Seq<char>>,
)
    requires
        rest_a.len() > 0 && rest_b.len() > 0 ==> rest_a[0] != rest_b[0],
    ensures
        directory_order(Some(common + rest_a), Some(common + rest_b)) == (if rest_a.len() == 0
            && rest_b.len() == 0 {
            Placement::Level
        } else if rest_a.len() == 0 {
            Placement::Before
        } else if rest_b.len() == 0 {
            Placement::After
        } else if standing(rest_a[0]) < standing(rest_b[0]) {
            Placement::Before
        } else if standing(rest_a[0]) > standing(rest_b[0]) {
            Placement::After
        } else {
            text_order(rest_a[0], rest_b[0])
        }),
        directory_order(None, Some(common)) == Placement::Before,
        directory_order(Some(common), None) == Placement::After,
        directory_order(None, None) == Placement::Level,
    decreases common.len(),
{
    let (a, b) = (common + rest_a, common + rest_b);
    if common.len() == 0 {
        assert(a =~= rest_a);
        assert(b =~= rest_b);
        if rest_a.len() > 0 && rest_b.len() > 0 && part_order(rest_a[0], rest_b[0])
            == Placement::Level {
            let (one_a, one_b) = (seq![rest_a[0]], seq![rest_b[0]]);
            assert(one_a.skip(1).len() == 0 && one_b.skip(1).len() == 0);
            reveal_with_fuel(parts_order, 2);
            lemma_level_directories_are_same(Some(one_a), Some(one_b));
            assert(seq![rest_a[0]][0] == seq![rest_b[0]][0]);
        }
    } else {
        law_first_different_part_decides(common.skip(1), rest_a, rest_b);
        assert(a.skip(1) =~= common.skip(1) + rest_a);
        assert(b.skip(1) =~= common.skip(1) + rest_b);
        assert(a[0] == common[0] && b[0] == common[0]);
        lemma_text_is_level_with_itself(common[0]);
    }
}

/// A list of parts is level with itself.
proof fn lemma_directory_is_level_with_itself(directory: Option<Seq<Seq<char>>>)
    ensures
        directory_order(directory, directory) == Placement::Level,
{
    if let Some(list) = directory {
        law_first_different_part_decides(list, Seq::empty(), Seq::empty());
        assert(list + Seq::<Seq<char>>::empty() =~= list);
    }
}

/// How two entries go by length: the longer first.
pub open spec fn longer_first(a: Incoming, b: Incoming) -> Placement {
    if a.inner.data@.len() > b.inner.data@.len() {
        Placement::Before
    } else if a.inner.data@.len() < b.inner.data@.len() {
        Placement::After
    } else {
        Placement::Level
    }
}

/// How two entries sort. One with a path comes before one without. Of two with paths, those
/// in different directories go by directory alone, and those in one directory by the natural
/// order of their names. What is level then goes by length.
pub proof fn law_directory_then_name_then_length(a: Incoming, b: Incoming)
    ensures
        view_order(sort_view(a), sort_view(b)) == (match (a.meta.file_path, b.meta.file_path) {
            (None, None) => longer_first(a, b),
            (Some(_), None) => Placement::Before,
            (None, Some(_)) => Placement::After,
            (Some(x), Some(y)) => if parent_parts(x@) != parent_parts(y@) {
                directory_order(parent_parts(x@), parent_parts(y@))
            } else if natural_order(file_name(x@), file_name(y@)) < 0 {
                Placement::Before
            } else if natural_order(file_name(x@), file_name(y@)) > 0 {
                Placement::After
            } else {
                longer_first(a, b)
            },
        }),
        (a.meta.file_path matches Some(x) && b.meta.file_path matches Some(y) && parent_parts(x@)
            != parent_parts(y@)) ==> view_order(sort_view(a), sort_view(b)) != Placement::Level,
{
    if let (Some(x), Some(y)) = (a.meta.file_path, b.meta.file_path) {
        let (dx, dy) = (parent_parts(x@), parent_parts(y@));
        if dx == dy {
            lemma_directory_is_level_with_itself(dx);
        } else if directory_order(dx, dy) == Placement::Level {
            lemma_level_directories_are_same(dx, dy);
        }
    }
}

/// Two files sort by the directories that they lie in, however deep, and only within one
/// directory by their names.
pub proof fn law_files_sort_by_directory_first(
    a: Incoming,
    b: Incoming,
    directory_a: Seq<char>,
    name_a: Seq<char>,
    directory_b: Seq<char>,
    name_b: Seq<char>,
)
    requires
        directory_a.len() > 0,
        directory_b.len() > 0,
        without_slash(name_a),
        without_slash(name_b),
        name_a.len() > 0,
        name_b.len() > 0,
        name_a != seq!['.'],
        name_a != seq!['.', '.'],
        name_b != seq!['.'],
        name_b != seq!['.', '.'],
        a.meta.file_path matches Some(path) && path@ == slashed(directory_a, name_a),
        b.meta.file_path matches Some(path) && path@ == slashed(directory_b, name_b),
    ensures
        view_order(sort_view(a), sort_view(b)) == (if parts(directory_a) != parts(directory_b) {
            directory_order(Some(parts(directory_a)), Some(parts(directory_b)))
        } else if natural_order(name_a, name_b) < 0 {
            Placement::Before
        } else if natural_order(name_a, name_b) > 0 {
            Placement::After
        } else {
            longer_first(a, b)
        }),
{
    law_file_lies_in_its_directory(directory_a, name_a);
    law_file_lies_in_its_directory(directory_b, name_b);
    law_directory_then_name_then_length(a, b);
}

/// A sorted bucket holds each entry once, and no entry stands behind one that it sorts before,
/// nor, if the two are level, behind one that arrived later.
pub proof fn law_sorted_bucket_is_in_order(bucket: Seq<Incoming>, sorted: Seq<Entry>) -> (places:
    Seq<usize>)
    requires
        sorted_from(bucket, sorted),
    ensures
        sorted.len() == bucket.len(),
        places.len() == bucket.len(),
        forall|i: int|
            0 <= i < places.len() ==> 0 <= #[trigger] places[i] < bucket.len() && sorted[i]
                == bucket[places[i] as int].inner,
        forall|i: int, j: int| 0 <= i < j < places.len() ==> places[i] != places[j],
        forall|i: int, j: int|
            0 <= i < j < places.len() ==> {
                let here = bucket[(#[trigger] places[i]) as int];
                let later = bucket[(#[trigger] places[j]) as int];
                &&& view_order(sort_view(later), sort_view(here)) != Placement::Before
                &&& view_order(sort_view(here), sort_view(later)) != Placement::After
                &&& view_order(sort_view(here), sort_view(later)) == Placement::Level
                    ==> places[i] < places[j]
            },
{
    let places = choose|places: Seq<usize>|
        {
            &&& lists_once(places, 0, bucket.len() as int)
            &&& in_order(sort_views(bucket), places)
            &&& sorted == #[trigger] arranged(bucket, places)
        };
    assert forall|i: int| 0 <= i < places.len() implies 0 <= #[trigger] places[i] < bucket.len()
        && sorted[i] == bucket[places[i] as int].inner by {
        assert(places.contains(places[i]));
    }
    assert forall|i: int, j: int| 0 <= i < j < places.len() implies {
        let here = bucket[(#[trigger] places[i]) as int];
        let later = bucket[(#[trigger] places[j]) as int];
        &&& view_order(sort_view(later), sort_view(here)) != Placement::Before
        &&& view_order(sort_view(here), sort_view(later)) != Placement::After
        &&& view_order(sort_view(here), sort_view(later)) == Placement::Level ==> places[i]
            < places[j]
    } by {
        assert(places.contains(places[i]) && places.contains(places[j]));
        assert(may_precede(sort_views(bucket), places[i], places[j]));
    }
    places
}

} // verus!
