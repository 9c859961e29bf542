//! Repository paths, read the way file systems with `/` as their separator read
//! them.
use vstd::prelude::*;

verus! {

/// Where one of two things belongs in relation to the other.
#[derive(Clone, Copy, Debug, PartialEq, Eq, Structural)]
pub enum Placement {
    Before,
    /// Neither comes first.
    Level,
    After,
}

/// The pieces of a path between its slashes, empty ones among them.
pub open spec fn pieces(path: Seq<char>) -> Seq<Seq<char>>
    decreases path.len(),
{
    if path.len() == 0 {
        seq![Seq::empty()]
    } else {
        let before = pieces(path.drop_last());
        if path.last() == '/' {
            before.push(Seq::empty())
        } else {
            before.drop_last().push(before.last().push(path.last()))
        }
    }
}

/// Whether a piece names a part of the path: an empty piece never does, and `.`
/// only as the first piece.
pub open spec fn names_part(pieces: Seq<Seq<char>>, i: int) -> bool {
    pieces[i].len() != 0 && (i == 0 || pieces[i] != seq!['.'])
}

/// The pieces among the first `n` that name a part of the path.
pub open spec fn naming_pieces(pieces: Seq<Seq<char>>, n: nat) -> Seq<Seq<char>>
    decreases n,
{
    if n == 0 {
        Seq::empty()
    } else {
        let before = naming_pieces(pieces, (n - 1) as nat);
        if names_part(pieces, n - 1) {
            before.push(pieces[n - 1])
        } else {
            before
        }
    }
}

/// The parts of a path: the root, written `/`, for a path that starts with a slash,
/// and then the pieces that name a part.
pub open spec fn parts(path: Seq<char>) -> Seq<Seq<char>> {
    let root: Seq<Seq<char>> = if path.len() > 0 && path[0] == '/' {
        seq![seq!['/']]
    } else {
        Seq::empty()
    };
    root + naming_pieces(pieces(path), pieces(path).len())
}

/// The parts of the directory that holds what the path names. The root and the
/// empty path have none.
pub open spec fn parent_parts(path: Seq<char>) -> Option<Seq<Seq<char>>> {
    let all = parts(path);
    if all.len() == 0 || all.last() == seq!['/'] {
        None
    } else {
        Some(all.drop_last())
    }
}

/// The file name at the end of the path; empty where the path ends in `.`, in `..`
/// or in the root, or has no part at all.
pub open spec fn file_name(path: Seq<char>) -> Seq<char> {
    let all = parts(path);
    if all.len() == 0 || part_rank(all.last()) < 3 {
        Seq::empty()
    } else {
        all.last()
    }
}

/// Parts sort by this before they sort by their text: the root, the current
/// directory, the parent directory, names.
pub open spec fn part_rank(part: Seq<char>) -> nat {
    if part == seq!['/'] {
        0
    } else if part == seq!['.'] {
        1
    } else if part == seq!['.', '.'] {
        2
    } else {
        3
    }
}

/// The order of two numbers.
pub open spec fn number_order(a: nat, b: nat) -> Placement {
    if a < b {
        Placement::Before
    } else if a == b {
        Placement::Level
    } else {
        Placement::After
    }
}

/// The order of two characters.
pub open spec fn char_order(a: char, b: char) -> Placement {
    if a < b {
        Placement::Before
    } else if a == b {
        Placement::Level
    } else {
        Placement::After
    }
}

/// The order of two texts, by their first characters that differ.
pub open spec fn text_order(a: Seq<char>, b: Seq<char>) -> Placement
    decreases a.len(),
{
    if a.len() == 0 || b.len() == 0 {
        number_order(a.len(), b.len())
    } else if a[0] != b[0] {
        char_order(a[0], b[0])
    } else {
        text_order(a.skip(1), b.skip(1))
    }
}

/// The order of two parts.
pub open spec fn part_order(a: Seq<char>, b: Seq<char>) -> Placement {
    if part_rank(a) != part_rank(b) {
        number_order(part_rank(a), part_rank(b))
    } else {
        text_order(a, b)
    }
}

/// The order of two lists of parts, by the first parts that differ.
pub open spec fn parts_order(a: Seq<Seq<char>>, b: Seq<Seq<char>>) -> Placement
    decreases a.len(),
{
    if a.len() == 0 || b.len() == 0 {
        number_order(a.len(), b.len())
    } else if part_order(a[0], b[0]) != Placement::Level {
        part_order(a[0], b[0])
    } else {
        parts_order(a.skip(1), b.skip(1))
    }
}

/// The order of two directories that may be missing: a missing one comes first.
pub open spec fn directory_order(
    a: Option<Seq<Seq<char>>>,
    b: Option<Seq<Seq<char>>>,
) -> Placement {
    match (a, b) {
        (None, None) => Placement::Level,
        (None, Some(_)) => Placement::Before,
        (Some(_), None) => Placement::After,
        (Some(a), Some(b)) => parts_order(a, b),
    }
}

/// The texts of a list of parts.
pub open spec fn texts(parts: Seq<Vec<char>>) -> Seq<Seq<char>> {
    Seq::new(parts.len(), |i: int| parts[i]@)
}

/// Whether a path starts with a slash, and its pieces.
fn split_path(path: &str) -> (split: (bool, Vec<Vec<char>>))
    ensures
        split.0 == (path@.len() > 0 && path@[0] == '/'),
        texts(split.1@) == pieces(path@),
{
    let mut rooted: bool = false;
    let mut first: bool = true;
    let mut done: Vec<Vec<char>> = Vec::new();
    let mut piece: Vec<char> = Vec::new();
    let ghost mut seen: Seq<char> = Seq::empty();
    assert(texts(done@).push(piece@) =~= pieces(seen));
    for c in it: path.chars()
        invariant
            it.seq() == path@,
            seen == path@.take(it.index()),
            first == (seen.len() == 0),
            rooted == (seen.len() > 0 && seen[0] == '/'),
            texts(done@).push(piece@) == pieces(seen),
    {
        proof {
            let longer = path@.take(it.index() + 1);
            assert(longer.drop_last() =~= seen);
            assert(longer.last() == c);
            assert(texts(done@).push(piece@).drop_last() =~= texts(done@));
            seen = longer;
        }
        if first {
            rooted = c == '/';
            first = false;
        }
        if c == '/' {
            let ghost texts_before = texts(done@);
            done.push(piece);
            assert(texts(done@) =~= texts_before.push(piece@));
            piece = Vec::new();
            assert(piece@ =~= Seq::<char>::empty());
        } else {
            piece.push(c);
        }
    }
    assert(path@.take(path@.len() as int) =~= path@);
    let ghost texts_before = texts(done@);
    done.push(piece);
    assert(texts(done@) =~= texts_before.push(piece@));
    (rooted, done)
}

/// Whether a piece is `.`.
fn is_dot(piece: &Vec<char>) -> (dot: bool)
    ensures
        dot == (piece@ == seq!['.']),
{
    let dot: bool = piece.len() == 1 && piece[0] == '.';
    assert(dot ==> piece@ =~= seq!['.']);
    dot
}

/// A vector with the same characters.
fn copy_chars(text: &Vec<char>) -> (copy: Vec<char>)
    ensures
        copy@ == text@,
{
    let mut copy: Vec<char> = Vec::with_capacity(text.len());
    for i in 0..text.len()
        invariant
            copy@ == text@.take(i as int),
    {
        copy.push(text[i]);
    }
    assert(text@.take(text@.len() as int) =~= text@);
    copy
}

/// The parts of a path.
fn path_parts(path: &str) -> (all: Vec<Vec<char>>)
    ensures
        texts(all@) == parts(path@),
{
    let (rooted, split) = split_path(path);
    let mut all: Vec<Vec<char>> = Vec::new();
    if rooted {
        let mut root: Vec<char> = Vec::new();
        root.push('/');
        assert(root@ =~= seq!['/']);
        all.push(root);
    }
    let ghost root_part = texts(all@);
    assert(root_part =~= if rooted {
        seq![seq!['/']]
    } else {
        Seq::<Seq<char>>::empty()
    });
    assert(root_part + naming_pieces(pieces(path@), 0) =~= root_part);
    for i in 0..split.len()
        invariant
            texts(split@) == pieces(path@),
            texts(all@) == root_part + naming_pieces(pieces(path@), i as nat),
    {
        assert(texts(split@)[i as int] == split@[i as int]@);
        if split[i].len() != 0 && (i == 0 || !is_dot(&split[i])) {
            let ghost before = texts(all@);
            let part: Vec<char> = copy_chars(&split[i]);
            all.push(part);
            assert(texts(all@) =~= before.push(part@));
            assert(texts(all@) =~= root_part + naming_pieces(pieces(path@), (i + 1) as nat));
        }
    }
    all
}

/// A path as entries are sorted by it: the directory it lies in and its file name.
pub struct PathKey {
    directory: Option<Vec<Vec<char>>>,
    name: String,
}

impl PathKey {
    /// The parts of the directory.
    pub closed spec fn directory(self) -> Option<Seq<Seq<char>>> {
        match self.directory {
            Some(directory) => Some(texts(directory@)),
            None => None,
        }
    }

    /// The file name.
    pub closed spec fn name(self) -> Seq<char> {
        self.name@
    }

    /// Reads a path.
    pub fn new(path: &str) -> (key: PathKey)
        ensures
            key.directory() == parent_parts(path@),
            key.name() == file_name(path@),
    {
        let mut all: Vec<Vec<char>> = path_parts(path);
        let ghost before = all@;
        match all.pop() {
            None => {
                assert(texts(before).len() == 0);
                PathKey { directory: None, name: String::new() }
            },
            Some(last) => {
                assert(texts(before).last() == last@);
                assert(texts(all@) =~= texts(before).drop_last());
                let rank: u8 = rank_of(&last);
                let name: String = if rank < 3 {
                    String::new()
                } else {
                    to_text(&last)
                };
                if rank == 0 {
                    PathKey { directory: None, name }
                } else {
                    PathKey { directory: Some(all), name }
                }
            },
        }
    }

    /// The file name.
    pub fn file_name(&self) -> (name: &str)
        ensures
            name@ == self.name(),
    {
        self.name.as_str()
    }

    /// How the directories of two paths sort.
    pub fn compare_directories(&self, other: &PathKey) -> (order: Placement)
        ensures
            order == directory_order(self.directory(), other.directory()),
    {
        match (&self.directory, &other.directory) {
            (None, None) => Placement::Level,
            (None, Some(_)) => Placement::Before,
            (Some(_), None) => Placement::After,
            (Some(a), Some(b)) => compare_parts(a, b),
        }
    }
}

/// The characters as a string.
fn to_text(chars: &Vec<char>) -> (text: String)
    ensures
        text@ == chars@,
{
    let mut text: String = String::new();
    for i in 0..chars.len()
        invariant
            text@ == chars@.take(i as int),
    {
        text.push(chars[i]);
    }
    assert(chars@.take(chars@.len() as int) =~= chars@);
    text
}

/// The rank by which a part sorts first.
fn rank_of(part: &Vec<char>) -> (rank: u8)
    ensures
        rank == part_rank(part@),
{
    if part.len() == 1 && part[0] == '/' {
        assert(part@ =~= seq!['/']);
        0
    } else if part.len() == 1 && part[0] == '.' {
        assert(part@ =~= seq!['.']);
        1
    } else if part.len() == 2 && part[0] == '.' && part[1] == '.' {
        assert(part@ =~= seq!['.', '.']);
        2
    } else {
        3
    }
}

/// How two texts sort.
fn compare_texts(a: &Vec<char>, b: &Vec<char>) -> (order: Placement)
    ensures
        order == text_order(a@, b@),
{
    let mut i: usize = 0;
    assert(a@.skip(0) =~= a@);
    assert(b@.skip(0) =~= b@);
    while i < a.len() && i < b.len()
        invariant
            i <= a@.len(),
            i <= b@.len(),
            text_order(a@, b@) == text_order(a@.skip(i as int), b@.skip(i as int)),
        decreases a@.len() - i,
    {
        if a[i] < b[i] {
            return Placement::Before;
        }
        if b[i] < a[i] {
            return Placement::After;
        }
        assert(a@.skip(i as int).skip(1) =~= a@.skip(i + 1));
        assert(b@.skip(i as int).skip(1) =~= b@.skip(i + 1));
        i = i + 1;
    }
    compare_lengths(a.len() - i, b.len() - i)
}

/// How two parts sort.
fn compare_part(a: &Vec<char>, b: &Vec<char>) -> (order: Placement)
    ensures
        order == part_order(a@, b@),
{
    let rank_a: u8 = rank_of(a);
    let rank_b: u8 = rank_of(b);
    if rank_a < rank_b {
        Placement::Before
    } else if rank_b < rank_a {
        Placement::After
    } else {
        compare_texts(a, b)
    }
}

/// How two lists of parts sort.
fn compare_parts(a: &Vec<Vec<char>>, b: &Vec<Vec<char>>) -> (order: Placement)
    ensures
        order == parts_order(texts(a@), texts(b@)),
{
    let ghost left = texts(a@);
    let ghost right = texts(b@);
    let mut i: usize = 0;
    assert(left.skip(0) =~= left);
    assert(right.skip(0) =~= right);
    while i < a.len() && i < b.len()
        invariant
            left == texts(a@),
            right == texts(b@),
            i <= a@.len(),
            i <= b@.len(),
            parts_order(left, right) == parts_order(left.skip(i as int), right.skip(i as int)),
        decreases a@.len() - i,
    {
        assert(left.skip(i as int)[0] == a@[i as int]@);
        assert(right.skip(i as int)[0] == b@[i as int]@);
        let order: Placement = compare_part(&a[i], &b[i]);
        match order {
            Placement::Level => {},
            _ => {
                return order;
            },
        }
        assert(left.skip(i as int).skip(1) =~= left.skip(i + 1));
        assert(right.skip(i as int).skip(1) =~= right.skip(i + 1));
        i = i + 1;
    }
    compare_lengths(a.len() - i, b.len() - i)
}

/// How two lengths sort.
pub(crate) fn compare_lengths(a: usize, b: usize) -> (order: Placement)
    ensures
        order == (if a < b {
            Placement::Before
        } else if a == b {
            Placement::Level
        } else {
            Placement::After
        }),
{
    if a < b {
        Placement::Before
    } else if a == b {
        Placement::Level
    } else {
        Placement::After
    }
}

/// Texts are ordered: what comes before a text, or is the same, comes before all that
/// it comes before.
proof fn lemma_text_order_chains(a: Seq<char>, b: Seq<char>, c: Seq<char>)
    requires
        text_order(a, b) != Placement::After,
        text_order(b, c) != Placement::After,
    ensures
        text_order(a, c) != Placement::After,
        text_order(a, b) == Placement::Before || text_order(b, c) == Placement::Before
            ==> text_order(a, c) == Placement::Before,
    decreases a.len(),
{
    if a.len() > 0 && b.len() > 0 && c.len() > 0 && a[0] == b[0] && b[0] == c[0] {
        lemma_text_order_chains(a.skip(1), b.skip(1), c.skip(1));
    }
}

/// Parts are ordered.
proof fn lemma_part_order_chains(a: Seq<char>, b: Seq<char>, c: Seq<char>)
    requires
        part_order(a, b) != Placement::After,
        part_order(b, c) != Placement::After,
    ensures
        part_order(a, c) != Placement::After,
        part_order(a, b) == Placement::Before || part_order(b, c) == Placement::Before
            ==> part_order(a, c) == Placement::Before,
{
    if part_rank(a) == part_rank(b) && part_rank(b) == part_rank(c) {
        lemma_text_order_chains(a, b, c);
    }
}

/// Lists of parts are ordered.
proof fn lemma_parts_order_chains(a: Seq<Seq<char>>, b: Seq<Seq<char>>, c: Seq<Seq<char>>)
    requires
        parts_order(a, b) != Placement::After,
        parts_order(b, c) != Placement::After,
    ensures
        parts_order(a, c) != Placement::After,
        parts_order(a, b) == Placement::Before || parts_order(b, c) == Placement::Before
            ==> parts_order(a, c) == Placement::Before,
    decreases a.len(),
{
    if a.len() > 0 && b.len() > 0 && c.len() > 0 {
        lemma_part_order_chains(a[0], b[0], c[0]);
        if part_order(a[0], b[0]) == Placement::Level && part_order(b[0], c[0])
            == Placement::Level {
            lemma_text_level_is_same(a[0], b[0]);
            lemma_parts_order_chains(a.skip(1), b.skip(1), c.skip(1));
        }
    }
}

/// Directories are ordered: what comes before a directory, or is level with it, comes
/// before all that it comes before.
pub proof fn lemma_directory_order_chains(
    a: Option<Seq<Seq<char>>>,
    b: Option<Seq<Seq<char>>>,
    c: Option<Seq<Seq<char>>>,
)
    requires
        directory_order(a, b) != Placement::After,
        directory_order(b, c) != Placement::After,
    ensures
        directory_order(a, c) != Placement::After,
        directory_order(a, b) == Placement::Before || directory_order(b, c) == Placement::Before
            ==> directory_order(a, c) == Placement::Before,
{
    if a is Some && b is Some && c is Some {
        lemma_parts_order_chains(a->0, b->0, c->0);
    }
}

/// Texts that are level are the same.
proof fn lemma_text_level_is_same(a: Seq<char>, b: Seq<char>)
    requires
        text_order(a, b) == Placement::Level,
    ensures
        a == b,
    decreases a.len(),
{
    if a.len() > 0 && b.len() > 0 {
        lemma_text_level_is_same(a.skip(1), b.skip(1));
        assert(a =~= seq![a[0]] + a.skip(1));
        assert(b =~= seq![b[0]] + b.skip(1));
    } else {
        assert(a =~= b);
    }
}

/// Lists of parts that are level are the same.
proof fn lemma_parts_level_are_same(a: Seq<Seq<char>>, b: Seq<Seq<char>>)
    requires
        parts_order(a, b) == Placement::Level,
    ensures
        a == b,
    decreases a.len(),
{
    if a.len() > 0 && b.len() > 0 {
        lemma_text_level_is_same(a[0], b[0]);
        lemma_parts_level_are_same(a.skip(1), b.skip(1));
        assert(a =~= seq![a[0]] + a.skip(1));
        assert(b =~= seq![b[0]] + b.skip(1));
    } else {
        assert(a =~= b);
    }
}

/// Directories that are level are the same.
pub proof fn lemma_level_directories_are_same(
    a: Option<Seq<Seq<char>>>,
    b: Option<Seq<Seq<char>>>,
)
    requires
        directory_order(a, b) == Placement::Level,
    ensures
        a == b,
{
    if a is Some {
        lemma_parts_level_are_same(a->0, b->0);
    }
}

} // verus!
