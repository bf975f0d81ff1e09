use find_duplicates::digest::file_digest;
use find_duplicates::find_duplicates::walk_decision;
use find_duplicates::find_duplicates::WalkAction;
use find_duplicates::find_duplicates::collect_groups;
use find_duplicates::find_duplicates::duplication_status;
use find_duplicates::find_duplicates::group_by_size;
use find_duplicates::find_duplicates::prepare_candidates;
use find_duplicates::find_duplicates::split_by_size;
use find_duplicates::find_duplicates::unique_by_identity;
use find_duplicates::find_duplicates::unique_by_path;
use find_duplicates::FileInfo;
use find_duplicates::HashedFile;

fn file(path: &str, size: u64, device: u64, inode: u64) -> FileInfo {
    FileInfo {
        path: path.to_string(),
        modified: 0,
        size,
        disk_usage: size,
        device,
        inode,
    }
}

fn with_content(info: FileInfo, content: &[u8]) -> HashedFile {
    let digest = file_digest(content.len() as u64, content);
    HashedFile { file: info, digest }
}

fn paths_of(group: &find_duplicates::DuplicatesGroup) -> Vec<String> {
    group.files.iter().map(|f| f.path.clone()).collect()
}

#[test]
fn identity_dedup_keeps_last_entry_per_physical_file() {
    let files = vec![
        file("/a/x", 50, 1, 7),
        file("/b/x_hardlink", 50, 1, 7),
        file("/c/y", 50, 1, 8),
    ];
    let kept = unique_by_identity(files);
    let paths: Vec<&str> = kept.iter().map(|f| f.path.as_str()).collect();
    assert_eq!(paths, vec!["/b/x_hardlink", "/c/y"]);
}

#[test]
fn path_dedup_keeps_one_entry_per_path() {
    let files = vec![
        file("/a/x", 10, 1, 1),
        file("/a/x", 10, 2, 2),
        file("/a/y", 10, 3, 3),
    ];
    let kept = unique_by_path(files);
    let paths: Vec<&str> = kept.iter().map(|f| f.path.as_str()).collect();
    assert_eq!(paths, vec!["/a/x", "/a/y"]);
}

#[test]
fn dedup_of_nothing_or_one_file_returns_it_unchanged() {
    assert_eq!(unique_by_identity(Vec::new()).len(), 0);
    let one = unique_by_identity(vec![file("/a/x", 10, 1, 1)]);
    assert_eq!(one.len(), 1);
    assert_eq!(one[0].path, "/a/x");
    let candidates = prepare_candidates(vec![file("/a/x", 10, 1, 1)]);
    assert_eq!(candidates.len(), 0);
}

#[test]
fn size_groups_drop_singletons() {
    let files = vec![
        file("/a", 10, 1, 1),
        file("/b", 20, 1, 2),
        file("/c", 10, 1, 3),
        file("/d", 30, 1, 4),
    ];
    let groups = group_by_size(files);
    assert_eq!(groups.len(), 1);
    let paths: Vec<&str> = groups[0].iter().map(|f| f.path.as_str()).collect();
    assert_eq!(paths, vec!["/a", "/c"]);
}

#[test]
fn size_partition_twice_equals_once() {
    let files = vec![
        file("/a", 10, 1, 1),
        file("/b", 20, 1, 2),
        file("/c", 10, 1, 3),
        file("/d", 20, 1, 4),
        file("/e", 20, 1, 5),
    ];
    let once = group_by_size(files);
    let again = split_by_size(once.clone());
    assert_eq!(once.len(), again.len());
    for (g1, g2) in once.iter().zip(again.iter()) {
        let p1: Vec<&str> = g1.iter().map(|f| f.path.as_str()).collect();
        let p2: Vec<&str> = g2.iter().map(|f| f.path.as_str()).collect();
        assert_eq!(p1, p2);
    }
}

#[test]
fn zero_byte_files_group_together() {
    let files = vec![file("/a/empty1", 0, 1, 1), file("/b/empty2", 0, 1, 2)];
    let candidates = prepare_candidates(files);
    assert_eq!(candidates.len(), 1);
    let hashed: Vec<Vec<HashedFile>> = candidates
        .into_iter()
        .map(|g| g.into_iter().map(|f| with_content(f, b"")).collect())
        .collect();
    let groups = collect_groups(hashed);
    assert_eq!(groups.len(), 1);
    assert_eq!(groups[0].files.len(), 2);
}

#[test]
fn two_identical_files_and_one_different() {
    // /a/x and /a/y hold one content, /a/z another; all 100 bytes.
    let content_a = [b'A'; 100];
    let content_b = [b'B'; 100];
    let files = vec![
        file("/a/x", 100, 1, 1),
        file("/a/y", 100, 1, 2),
        file("/a/z", 100, 1, 3),
    ];
    let candidates = prepare_candidates(files);
    let hashed: Vec<Vec<HashedFile>> = candidates
        .into_iter()
        .map(|g| {
            g.into_iter()
                .map(|f| {
                    let content: &[u8] = if f.path == "/a/z" { &content_b } else { &content_a };
                    with_content(f, content)
                })
                .collect()
        })
        .collect();
    let groups = collect_groups(hashed);
    assert_eq!(groups.len(), 1);
    assert_eq!(groups[0].size(), 100);
    let mut paths = paths_of(&groups[0]);
    paths.sort();
    assert_eq!(paths, vec!["/a/x".to_string(), "/a/y".to_string()]);
    assert_eq!(groups[0].waste(), 200);
    let status = duplication_status(&groups);
    assert_eq!(status, "200 B wasted in 1 files (in 1 groups)");
}

#[test]
fn min_size_above_all_files_yields_nothing() {
    // The same three files, but a walker threshold of 101 bytes admits none.
    for _path in ["/a/x", "/a/y", "/a/z"] {
        let action = walk_decision(false, false, true, 100, 101, true);
        assert!(matches!(action, WalkAction::Ignore));
    }
    let groups = collect_groups(Vec::new());
    assert_eq!(groups.len(), 0);
    let status = duplication_status(&groups);
    assert_eq!(status, "0 B wasted in 0 files (in 0 groups)");
}

#[test]
fn hardlinked_entries_never_form_a_group() {
    // /a/x and /b/x_hardlink name one physical file; /c/y holds the same
    // bytes on another inode.  Exactly one of the hardlink entries may pair
    // with /c/y; the two hardlink entries never pair with each other.
    let content = [b'H'; 50];
    let files = vec![
        file("/a/x", 50, 1, 7),
        file("/b/x_hardlink", 50, 1, 7),
        file("/c/y", 50, 1, 8),
    ];
    let candidates = prepare_candidates(files);
    let hashed: Vec<Vec<HashedFile>> = candidates
        .into_iter()
        .map(|g| g.into_iter().map(|f| with_content(f, &content)).collect())
        .collect();
    let groups = collect_groups(hashed);
    assert_eq!(groups.len(), 1);
    let mut paths = paths_of(&groups[0]);
    paths.sort();
    assert_eq!(paths.len(), 2);
    assert!(paths.contains(&"/c/y".to_string()));
    let hardlinks = paths
        .iter()
        .filter(|p| *p == "/a/x" || *p == "/b/x_hardlink")
        .count();
    assert_eq!(hardlinks, 1);
}

#[test]
fn groups_are_ranked_by_waste_descending() {
    let small = [b's'; 10];
    let large = [b'L'; 1000];
    let files = vec![
        file("/s1", 10, 1, 1),
        file("/s2", 10, 1, 2),
        file("/l1", 1000, 1, 3),
        file("/l2", 1000, 1, 4),
    ];
    let candidates = prepare_candidates(files);
    let hashed: Vec<Vec<HashedFile>> = candidates
        .into_iter()
        .map(|g| {
            g.into_iter()
                .map(|f| {
                    let content: &[u8] = if f.size == 10 { &small } else { &large };
                    with_content(f, content)
                })
                .collect()
        })
        .collect();
    let groups = collect_groups(hashed);
    assert_eq!(groups.len(), 2);
    assert_eq!(groups[0].waste(), 2000);
    assert_eq!(groups[1].waste(), 20);
    let status = duplication_status(&groups);
    assert_eq!(status, "2.02 kB wasted in 2 files (in 2 groups)");
}

#[test]
fn equal_contents_different_sizes_stay_apart() {
    // Same digest can only be compared within one size class; files of
    // different sizes never meet.
    let files = vec![file("/a", 3, 1, 1), file("/b", 5, 1, 2)];
    let candidates = prepare_candidates(files);
    assert_eq!(candidates.len(), 0);
}

#[test]
fn same_size_different_content_not_grouped() {
    let files = vec![file("/a", 3, 1, 1), file("/b", 3, 1, 2)];
    let candidates = prepare_candidates(files);
    assert_eq!(candidates.len(), 1);
    let hashed: Vec<Vec<HashedFile>> = candidates
        .into_iter()
        .map(|g| {
            g.into_iter()
                .map(|f| {
                    let content: &[u8] = if f.path == "/a" { b"abc" } else { b"xyz" };
                    with_content(f, content)
                })
                .collect()
        })
        .collect();
    let groups = collect_groups(hashed);
    assert_eq!(groups.len(), 0);
}
