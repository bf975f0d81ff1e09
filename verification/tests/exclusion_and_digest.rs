use find_duplicates::digest::empty_digest;
use find_duplicates::digest::file_digest;
use find_duplicates::exclusion::compile_exclusions;
use find_duplicates::exclusion::default_exclusions;
use find_duplicates::exclusion::exclusion_to_pattern;
use find_duplicates::exclusion::is_excluded;
use find_duplicates::exclusion::Exclusion;
use find_duplicates::find_duplicates::walk_decision;
use find_duplicates::find_duplicates::WalkAction;

fn hex_of(bytes: &[u8]) -> String {
    let digits = b"0123456789abcdef";
    let mut out = String::new();
    for b in bytes {
        out.push(digits[(b >> 4) as usize] as char);
        out.push(digits[(b & 15) as usize] as char);
    }
    out
}

#[test]
fn digest_is_sha256() {
    // The SHA-256 test vector for "abc".
    let d = file_digest(3, b"abc");
    assert_eq!(
        hex_of(&d),
        "ba7816bf8f01cfea414140de5dae2223b00361a396177a9cb410ff61f20015ad"
    );
}

#[test]
fn empty_digest_is_sha256_of_nothing() {
    let d = empty_digest();
    assert_eq!(
        hex_of(&d),
        "e3b0c44298fc1c149afbf4c8996fb92427ae41e4649b934ca495991b7852b855"
    );
    assert_eq!(file_digest(0, b""), d);
}

#[test]
fn default_exclusions_cover_pseudo_filesystems_and_vcs_directories() {
    let rules = default_exclusions();
    assert_eq!(rules.len(), 12);
    let texts: Vec<String> = rules.iter().map(|r| r.text().to_string()).collect();
    assert_eq!(
        texts,
        vec![
            "/lost+found",
            "/dev",
            "/proc",
            "/sys",
            "/tmp",
            "*/.svn",
            "*/CVS",
            "*/.git",
            "*/.hg",
            "*/.bzr",
            "*/node_modules",
            "*/target"
        ]
    );
}

#[test]
fn exclusion_patterns_match_full_paths() {
    let rules = vec![
        Exclusion::Pattern("*/node_modules".to_string()),
        Exclusion::Directory("/tmp".to_string()),
    ];
    let patterns = compile_exclusions(&rules).unwrap();
    assert!(is_excluded(&patterns, "/home/me/project/node_modules"));
    assert!(is_excluded(&patterns, "/tmp"));
    assert!(!is_excluded(&patterns, "/home/me/project/src"));
    assert!(!is_excluded(&patterns, "/var/tmp"));
}

#[test]
fn malformed_pattern_is_reported_before_any_walk() {
    let rules = vec![
        Exclusion::Pattern("*/ok".to_string()),
        Exclusion::Pattern("a**b***c****".to_string()),
    ];
    match compile_exclusions(&rules) {
        Ok(_) => panic!("the malformed pattern must be rejected"),
        Err(text) => assert_eq!(text, "a**b***c****"),
    }
}

#[test]
fn excluded_entries_are_skipped_outright() {
    let rules = vec![Exclusion::Pattern("*/.git".to_string())];
    let patterns = compile_exclusions(&rules).unwrap();
    let excluded = is_excluded(&patterns, "/repo/.git");
    let action = walk_decision(excluded, true, false, 0, 0, true);
    assert!(matches!(action, WalkAction::Skip));
}

#[test]
fn min_size_boundary_is_inclusive() {
    // A file of exactly min_size is admitted; one byte smaller is not.
    let at_boundary = walk_decision(false, false, true, 4096, 4096, true);
    assert!(matches!(at_boundary, WalkAction::Admit));
    let below = walk_decision(false, false, true, 4095, 4096, true);
    assert!(matches!(below, WalkAction::Ignore));
}

#[test]
fn directories_recurse_only_when_asked() {
    assert!(matches!(walk_decision(false, true, false, 0, 0, true), WalkAction::Recurse));
    assert!(matches!(walk_decision(false, true, false, 0, 0, false), WalkAction::Ignore));
    // A symlink or other special entry is neither admitted nor entered.
    assert!(matches!(walk_decision(false, false, false, 10, 0, true), WalkAction::Ignore));
}
