//! Paths and the order of entries.
use pack_encoder::buckets::sort_bucket;
use pack_encoder::hash::ObjectHash;
use pack_encoder::object::{Entry, EntryMeta, MetaAttached, ObjectType};
use pack_encoder::order::{magic_sort, sorted_order};
use pack_encoder::path::{PathKey, Placement};
use std::cmp::Ordering;
use std::path::Path;

const PATHS: [&str; 36] = [
    "", "/", "//", ".", "..", "./", "../", "/.", "/..", "a", "/a", "a/", "a//", "./a", "a/.",
    "a/..", "a/./b", "a//b", "a/b", "a/b/", "/a/b", "/a/./b", "..a", ".a", "a.", "a/b/c", "a-b/c",
    "a.b/c", "ab/c", "A/c", "../a", "./a/b", "a/../b", "..../x", "\u{e9}/x", "z/\u{1f600}",
];

fn placement(ordering: Ordering) -> Placement {
    match ordering {
        Ordering::Less => Placement::Before,
        Ordering::Equal => Placement::Level,
        Ordering::Greater => Placement::After,
    }
}

fn blob(path: Option<&str>, len: usize) -> MetaAttached<Entry, EntryMeta> {
    MetaAttached {
        inner: Entry {
            obj_type: ObjectType::Blob,
            data: vec![0; len],
            hash: ObjectHash::Sha1([len as u8; 20]),
            chain_len: 0,
        },
        meta: EntryMeta { file_path: path.map(|path| path.to_string()) },
    }
}

/// The order of two entries, with the comparisons of the standard library.
fn by_std(
    a: &MetaAttached<Entry, EntryMeta>,
    b: &MetaAttached<Entry, EntryMeta>,
) -> Ordering {
    match (&a.meta.file_path, &b.meta.file_path) {
        (Some(path_a), Some(path_b)) => {
            let (path_a, path_b) = (Path::new(path_a), Path::new(path_b));
            let dir_ord = path_a.parent().cmp(&path_b.parent());
            if dir_ord != Ordering::Equal {
                return dir_ord;
            }
            let name_a = path_a.file_name().unwrap_or_default().to_string_lossy();
            let name_b = path_b.file_name().unwrap_or_default().to_string_lossy();
            let name_ord = natord::compare(&name_a, &name_b);
            if name_ord != Ordering::Equal {
                return name_ord;
            }
        }
        (Some(_), None) => return Ordering::Less,
        (None, Some(_)) => return Ordering::Greater,
        (None, None) => {}
    }
    b.inner.data.len().cmp(&a.inner.data.len())
}

#[test]
fn file_names_are_those_of_std() {
    for path in PATHS {
        let expected = Path::new(path).file_name().unwrap_or_default().to_string_lossy();
        assert_eq!(PathKey::new(path).file_name(), expected, "file name of {path:?}");
    }
}

#[test]
fn directories_sort_as_in_std() {
    for a in PATHS {
        for b in PATHS {
            let expected = Path::new(a).parent().cmp(&Path::new(b).parent());
            assert_eq!(
                PathKey::new(a).compare_directories(&PathKey::new(b)),
                placement(expected),
                "directories of {a:?} and {b:?}"
            );
        }
    }
}

#[test]
fn entries_sort_as_with_std() {
    for a in PATHS {
        for b in PATHS {
            for (len_a, len_b) in [(1, 1), (1, 2), (2, 1)] {
                let (entry_a, entry_b) = (blob(Some(a), len_a), blob(Some(b), len_b));
                assert_eq!(
                    magic_sort(&entry_a, &entry_b, Placement::Level),
                    placement(by_std(&entry_a, &entry_b)),
                    "{a:?} and {b:?}"
                );
            }
        }
    }
}

#[test]
fn entries_with_paths_come_first() {
    let with = blob(Some("a"), 1);
    let without = blob(None, 100);
    assert_eq!(magic_sort(&with, &without, Placement::Level), Placement::Before);
    assert_eq!(magic_sort(&without, &with, Placement::Level), Placement::After);
}

#[test]
fn names_sort_naturally() {
    let order = |a, b| magic_sort(&blob(Some(a), 1), &blob(Some(b), 1), Placement::Level);
    assert_eq!(order("d/f2", "d/f10"), Placement::Before);
    assert_eq!(order("d/f10", "d/f2"), Placement::After);
    assert_eq!(order("d/f015", "d/f12"), Placement::Before);
    assert_eq!(order("d/f 2", "d/f2"), Placement::Level);
    assert_eq!(order("d2/f", "d10/f"), Placement::After);
}

#[test]
fn larger_entries_come_first() {
    assert_eq!(magic_sort(&blob(None, 5), &blob(None, 3), Placement::Level), Placement::Before);
    assert_eq!(magic_sort(&blob(None, 3), &blob(None, 5), Placement::Level), Placement::After);
}

#[test]
fn address_decides_between_level_entries() {
    let (a, b) = (blob(Some("x/y"), 4), blob(Some("x//y"), 4));
    assert_eq!(magic_sort(&a, &b, Placement::Before), Placement::Before);
    assert_eq!(magic_sort(&a, &b, Placement::After), Placement::After);
    let c = blob(Some("x/z"), 4);
    assert_eq!(magic_sort(&a, &c, Placement::After), Placement::Before);
}

#[test]
fn comparison_turns_round() {
    for a in PATHS {
        for b in PATHS {
            let (entry_a, entry_b) = (blob(Some(a), 2), blob(Some(b), 3));
            let there = magic_sort(&entry_a, &entry_b, Placement::Level);
            let back = magic_sort(&entry_b, &entry_a, Placement::Level);
            let turned = match there {
                Placement::Before => Placement::After,
                Placement::Level => Placement::Level,
                Placement::After => Placement::Before,
            };
            assert_eq!(back, turned);
        }
    }
}

#[test]
fn natural_order_chains() {
    let names = [
        "a", "a1", "a01", "a 1", "a10", "a2", "b", "1", "01", "0 1", " ", "", "a1b", "a1 b", "001",
        "00", "0", "10", "9", "-1", "+1", "1-", "1+", "12", "1 2", "a\t1", ":", "/",
    ];
    for x in names {
        for y in names {
            for z in names {
                let (xy, yz, xz) =
                    (natord::compare(x, y), natord::compare(y, z), natord::compare(x, z));
                if xy != Ordering::Greater && yz != Ordering::Greater {
                    assert_ne!(xz, Ordering::Greater, "{x:?} {y:?} {z:?}");
                    if xy == Ordering::Less || yz == Ordering::Less {
                        assert_eq!(xz, Ordering::Less, "{x:?} {y:?} {z:?}");
                    }
                }
            }
        }
    }
}

#[test]
fn buckets_sort_stably_as_with_std() {
    let mut state: u64 = 42;
    let mut next = |bound: u64| -> u64 {
        state = state.wrapping_mul(6364136223846793005).wrapping_add(1442695040888963407);
        (state >> 33) % bound
    };
    for count in [0usize, 1, 2, 3, 10, 101] {
        let mut bucket = Vec::new();
        for _ in 0..count {
            let path = match next(4) {
                0 => None,
                _ => Some(PATHS[next(PATHS.len() as u64) as usize]),
            };
            bucket.push(blob(path, next(4) as usize));
        }
        let mut expected: Vec<usize> = (0..count).collect();
        expected.sort_by(|&a, &b| by_std(&bucket[a], &bucket[b]));
        assert_eq!(sorted_order(&bucket), expected);
        let lens: Vec<usize> = expected.iter().map(|&i| bucket[i].inner.data.len()).collect();
        let sorted = sort_bucket(bucket);
        assert_eq!(sorted.iter().map(|entry| entry.data.len()).collect::<Vec<_>>(), lens);
    }
}

#[test]
fn one_directory_stays_together() {
    let bucket = vec![
        blob(Some("src/b.rs"), 1),
        blob(None, 9),
        blob(Some("doc/a.md"), 2),
        blob(Some("src/a.rs"), 3),
        blob(None, 10),
        blob(Some("src/a.rs"), 4),
    ];
    assert_eq!(sorted_order(&bucket), vec![2, 5, 3, 0, 4, 1]);
}
