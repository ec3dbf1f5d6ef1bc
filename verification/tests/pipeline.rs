use std::collections::HashMap;
use std::path::{Path, PathBuf};

use samanlainen::{
    bucket_sizes, eliminate_first_or_last_bytes_hash, find_candidate_files,
    find_final_candidates, generate_stats, resolve_group, DuplicateResult, EntryKind,
    FileIdentity, Freed, Sample, ScanType, WalkEntry, scan_window,
};

const HELLO_DIGEST: &str = "9b71d224bd62f3785d96d46ad3ea3d73319bfbc2890caadae2dff72519673ca72323c3d99ba5c11d7c7acc6e14b8c5da0c4663475c2e5c3adef46f73bcdec043";

/// A file of an in-memory tree: name, content, inode.
type Node<'a> = (&'a str, &'a [u8], u64);

fn walk(root: &str, tree: &[Node]) -> Vec<WalkEntry<PathBuf>> {
    let mut entries = vec![WalkEntry {
        path: Path::new(root).to_path_buf(),
        kind: EntryKind::Directory,
        size: 0,
        identity: FileIdentity { device: 1, inode: 1 },
    }];
    for (name, content, inode) in tree {
        entries.push(WalkEntry {
            path: Path::new(root).join(name),
            kind: EntryKind::File,
            size: content.len() as u64,
            identity: FileIdentity { device: 1, inode: *inode },
        });
    }
    entries
}

fn content<'a>(root: &str, tree: &[Node<'a>], path: &PathBuf) -> &'a [u8] {
    for (name, content, _) in tree {
        if &Path::new(root).join(name) == path {
            return content;
        }
    }
    panic!("no such file");
}

fn sample_windows(
    root: &str,
    tree: &[Node],
    found: HashMap<u64, Vec<PathBuf>>,
    t: ScanType,
    scansize: u64,
) -> HashMap<u64, Vec<Sample<PathBuf>>> {
    let mut out = HashMap::new();
    for (size, files) in found {
        let mut samples = Vec::new();
        for path in files {
            let bytes = match scan_window(t, size, scansize) {
                None => Vec::new(),
                Some(w) => {
                    let all = content(root, tree, &path);
                    all[w.offset as usize..(w.offset + w.length) as usize].to_vec()
                }
            };
            samples.push(Sample { path, bytes });
        }
        out.insert(size, samples);
    }
    out
}

struct Outcome {
    groups: Vec<(u64, DuplicateResult<PathBuf>)>,
    freed: Freed,
}

fn run(root: &str, tree: &[Node], minimum: u64, maximum: u64, count: u64, scansize: u64) -> Outcome {
    let mut found = find_candidate_files(walk(root, tree), minimum, maximum, count);
    found = eliminate_first_or_last_bytes_hash(
        sample_windows(root, tree, found, ScanType::Last, scansize),
        scansize,
        count,
    );
    found = eliminate_first_or_last_bytes_hash(
        sample_windows(root, tree, found, ScanType::First, scansize),
        scansize,
        count,
    );
    let mut sizes = bucket_sizes(&found);
    sizes.sort();
    let mut groups = Vec::new();
    let mut freed = Freed::new();
    for size in sizes {
        let files = found.remove(&size).unwrap();
        let samples = files
            .into_iter()
            .map(|path| Sample { bytes: content(root, tree, &path).to_vec(), path })
            .collect();
        for group in find_final_candidates(samples) {
            if let Some(result) = resolve_group(group, count) {
                freed = freed.record(result.removed.len() as u64, size).unwrap();
                groups.push((size, result));
            }
        }
    }
    Outcome { groups, freed }
}

#[test]
fn test_integration() {
    let mincount: u64 = 2;
    let scansize: u64 = 1048576;

    let tree: [Node; 5] = [
        ("a.txt", b"hello", 10),
        ("b.txt", b"hello", 11),
        ("c.txt", b"world", 12),
        ("empty", b"", 13),
        ("single", b"only one of this size", 14),
    ];
    let mut cf = find_candidate_files(walk("test", &tree), 1, 0, mincount);
    assert_eq!(generate_stats(cf.clone()), (3, 15));
    cf = eliminate_first_or_last_bytes_hash(
        sample_windows("test", &tree, cf, ScanType::Last, scansize),
        scansize,
        mincount,
    );
    cf = eliminate_first_or_last_bytes_hash(
        sample_windows("test", &tree, cf, ScanType::First, scansize),
        scansize,
        mincount,
    );
    assert_eq!(generate_stats(cf.clone()), (3, 15));

    let mut listed: Vec<PathBuf> = Vec::new();
    for (_fsize, files) in cf {
        let samples = files
            .into_iter()
            .map(|path| Sample { bytes: content("test", &tree, &path).to_vec(), path })
            .collect();
        let final_candidates = find_final_candidates(samples);
        for group in final_candidates {
            for file in group.files {
                println!("{}", file.display());
                listed.push(file);
            }
        }
    }
    assert_eq!(listed, vec![PathBuf::from("test/a.txt"), PathBuf::from("test/b.txt")]);
}

#[test]
fn identical_pair_gives_one_group_and_frees_five_bytes() {
    let tree: [Node; 2] = [("a.txt", b"hello", 2), ("b.txt", b"hello", 3)];
    let outcome = run("dir", &tree, 1, 0, 2, 1048576);
    assert_eq!(outcome.groups.len(), 1);
    let (size, group) = &outcome.groups[0];
    assert_eq!(*size, 5);
    assert_eq!(group.digest, HELLO_DIGEST);
    assert_eq!(group.survivor, PathBuf::from("dir/a.txt"));
    assert_eq!(group.removed, vec![PathBuf::from("dir/b.txt")]);
    assert_eq!(outcome.freed, Freed { files: 1, bytes: 5 });
}

#[test]
fn same_size_different_content_gives_no_group() {
    let tree: [Node; 2] = [("a.txt", b"hello", 2), ("b.txt", b"world", 3)];
    let found = find_candidate_files(walk("dir", &tree), 1, 0, 2);
    assert_eq!(found.get(&5).map(|files| files.len()), Some(2));
    let outcome = run("dir", &tree, 1, 0, 2, 1048576);
    assert!(outcome.groups.is_empty());
    assert_eq!(outcome.freed, Freed { files: 0, bytes: 0 });
}

#[test]
fn three_identical_files_with_threshold_three() {
    let tree: [Node; 3] = [("a", b"same!", 2), ("b", b"same!", 3), ("c", b"same!", 4)];
    let outcome = run("dir", &tree, 1, 0, 3, 1048576);
    assert_eq!(outcome.groups.len(), 1);
    let (_, group) = &outcome.groups[0];
    assert_eq!(group.survivor, PathBuf::from("dir/a"));
    assert_eq!(group.removed, vec![PathBuf::from("dir/b"), PathBuf::from("dir/c")]);
    assert_eq!(outcome.freed, Freed { files: 2, bytes: 10 });
}

#[test]
fn pair_below_threshold_three_is_not_reported() {
    let tree: [Node; 2] = [("a", b"same!", 2), ("b", b"same!", 3)];
    let outcome = run("dir", &tree, 1, 0, 3, 1048576);
    assert!(outcome.groups.is_empty());
}

#[test]
fn empty_files_never_appear_in_a_group() {
    let tree: [Node; 4] =
        [("e1", b"", 2), ("e2", b"", 3), ("a.txt", b"hello", 4), ("b.txt", b"hello", 5)];
    let found = find_candidate_files(walk("dir", &tree), 0, 0, 2);
    assert!(!found.contains_key(&0));
    let outcome = run("dir", &tree, 0, 0, 2, 1048576);
    assert_eq!(outcome.groups.len(), 1);
    for (_, group) in &outcome.groups {
        assert_ne!(group.survivor, PathBuf::from("dir/e1"));
        assert_ne!(group.survivor, PathBuf::from("dir/e2"));
        assert!(!group.removed.contains(&PathBuf::from("dir/e1")));
        assert!(!group.removed.contains(&PathBuf::from("dir/e2")));
    }
}

#[test]
fn hard_links_are_one_candidate() {
    let tree: [Node; 2] = [("name", b"hello", 7), ("other_name", b"hello", 7)];
    let found = find_candidate_files(walk("dir", &tree), 1, 0, 2);
    assert!(found.is_empty());
    let outcome = run("dir", &tree, 1, 0, 2, 1048576);
    assert!(outcome.groups.is_empty());

    let tree: [Node; 3] = [("name", b"hello", 7), ("other_name", b"hello", 7), ("copy", b"hello", 8)];
    let outcome = run("dir", &tree, 1, 0, 2, 1048576);
    assert_eq!(outcome.groups.len(), 1);
    assert_eq!(outcome.groups[0].1.survivor, PathBuf::from("dir/name"));
    assert_eq!(outcome.groups[0].1.removed, vec![PathBuf::from("dir/copy")]);
}

#[test]
fn same_inode_on_another_device_is_another_file() {
    let mut entries = walk("dir", &[("a", b"hello", 7)]);
    entries.push(WalkEntry {
        path: PathBuf::from("mnt/a"),
        kind: EntryKind::File,
        size: 5,
        identity: FileIdentity { device: 2, inode: 7 },
    });
    let found = find_candidate_files(entries, 1, 0, 2);
    assert_eq!(found.get(&5), Some(&vec![PathBuf::from("dir/a"), PathBuf::from("mnt/a")]));
}

#[test]
fn rerun_gives_same_groups_and_same_survivor() {
    let tree: [Node; 6] = [
        ("a", b"0123456789", 2),
        ("b", b"0123456789", 3),
        ("c", b"01234x6789", 4),
        ("d", b"hello", 5),
        ("e", b"hello", 6),
        ("f", b"hello", 7),
    ];
    let first = run("dir", &tree, 1, 0, 2, 4);
    let second = run("dir", &tree, 1, 0, 2, 4);
    assert_eq!(first.groups, second.groups);
    assert_eq!(first.freed, second.freed);
    assert_eq!(first.groups.len(), 2);
    assert_eq!(first.groups[0].1.survivor, PathBuf::from("dir/d"));
    assert_eq!(first.groups[1].1.survivor, PathBuf::from("dir/a"));
    assert_eq!(first.groups[1].1.removed, vec![PathBuf::from("dir/b")]);
    assert_eq!(first.freed, Freed { files: 3, bytes: 20 });
}

#[test]
fn end_window_drops_files_that_differ_at_the_end() {
    let tree: [Node; 3] = [("a", b"0123456789", 2), ("b", b"0123456789", 3), ("c", b"012345678x", 4)];
    let found = find_candidate_files(walk("dir", &tree), 1, 0, 2);
    let after_end = eliminate_first_or_last_bytes_hash(
        sample_windows("dir", &tree, found.clone(), ScanType::Last, 2),
        2,
        2,
    );
    assert_eq!(after_end.get(&10), Some(&vec![PathBuf::from("dir/a"), PathBuf::from("dir/b")]));
    let after_start = eliminate_first_or_last_bytes_hash(
        sample_windows("dir", &tree, found, ScanType::First, 2),
        2,
        2,
    );
    assert_eq!(after_start.get(&10).map(|files| files.len()), Some(3));
}

#[test]
fn every_surviving_bucket_reaches_the_threshold() {
    let tree: [Node; 7] = [
        ("a", b"0123456789", 2),
        ("b", b"0123456789", 3),
        ("c", b"x123456789", 4),
        ("d", b"abc", 5),
        ("e", b"abd", 6),
        ("f", b"lonely", 7),
        ("g", b"abe", 8),
    ];
    let count = 2;
    let found = find_candidate_files(walk("dir", &tree), 1, 0, count);
    assert_eq!(found.len(), 2);
    assert!(found.values().all(|files| files.len() as u64 >= count));
    let after_end = eliminate_first_or_last_bytes_hash(
        sample_windows("dir", &tree, found, ScanType::Last, 2),
        2,
        count,
    );
    assert_eq!(after_end.len(), 1);
    assert!(after_end.values().all(|files| files.len() as u64 >= count));
    let after_start = eliminate_first_or_last_bytes_hash(
        sample_windows("dir", &tree, after_end, ScanType::First, 2),
        2,
        count,
    );
    assert_eq!(after_start.get(&10), Some(&vec![PathBuf::from("dir/a"), PathBuf::from("dir/b")]));
    assert!(after_start.values().all(|files| files.len() as u64 >= count));
}

#[test]
fn files_of_different_sizes_never_share_a_bucket() {
    let tree: [Node; 4] = [("a", b"aaaa", 2), ("b", b"aaaa", 3), ("c", b"aaaaaa", 4), ("d", b"aaaaaa", 5)];
    let found = find_candidate_files(walk("dir", &tree), 1, 0, 2);
    let refined = eliminate_first_or_last_bytes_hash(
        sample_windows("dir", &tree, found, ScanType::Last, 2),
        2,
        2,
    );
    assert_eq!(refined.get(&4), Some(&vec![PathBuf::from("dir/a"), PathBuf::from("dir/b")]));
    assert_eq!(refined.get(&6), Some(&vec![PathBuf::from("dir/c"), PathBuf::from("dir/d")]));
}
