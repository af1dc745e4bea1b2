use portable_glob_walk::glob_walker::{to_slash_path, GlobDirMatcher, WalkStep};
use portable_glob_walk::portable_glob::parse_portable_glob;
use std::path::{Path, MAIN_SEPARATOR};
use tempfile::tempdir;
use walkdir::WalkDir;

const FILES: [&str; 5] = [
    "path1/dir1/subdir/a.txt",
    "path2/dir2/subdir/a.txt",
    "path3/dir3/subdir/a.txt",
    "path4/dir4/subdir/a.txt",
    "path5/dir5/subdir/a.txt",
];

const PATTERNS: [&str; 5] = [
    // Only sufficient for descending one level
    "path1/*",
    // Only sufficient for descending one level
    "path2/dir2",
    // Sufficient for descending
    "path3/dir3/subdir/a.txt",
    // Sufficient for descending
    "path4/**/*",
    // Not sufficient for descending
    "path5",
];

fn matcher_of(patterns: &[&str]) -> GlobDirMatcher {
    let globs: Vec<_> = patterns
        .iter()
        .map(|pattern| parse_portable_glob(pattern).unwrap())
        .collect();
    GlobDirMatcher::new(&globs).unwrap()
}

fn relative_bytes(path: &Path, root: &Path) -> Vec<u8> {
    let relative = path.strip_prefix(root).expect("walkdir starts with root");
    to_slash_path(
        relative.to_str().unwrap().as_bytes(),
        MAIN_SEPARATOR as u8,
    )
}

fn make_tree(root: &Path) {
    for file in FILES {
        let file = root.join(file);
        fs_err::create_dir_all(file.parent().unwrap()).unwrap();
        fs_err::File::create(file).unwrap();
    }
}

#[test]
fn match_directory() {
    let matcher = matcher_of(&PATTERNS);
    assert!(matcher.match_directory(b"path1/dir1"));
    assert!(matcher.match_directory(b"path2/dir2"));
    assert!(matcher.match_directory(b"path3/dir3"));
    assert!(matcher.match_directory(b"path4/dir4"));
    assert!(!matcher.match_directory(b"path5/dir5"));
}

/// Check that we skip directories that can never match.
#[test]
fn prefilter() {
    let dir = tempdir().unwrap();
    make_tree(dir.path());
    let matcher = matcher_of(&PATTERNS);

    let mut visited: Vec<String> = WalkDir::new(dir.path())
        .into_iter()
        .filter_entry(|entry| matcher.match_directory(&relative_bytes(entry.path(), dir.path())))
        .map(|entry| {
            let entry = entry.unwrap();
            String::from_utf8(relative_bytes(entry.path(), dir.path())).unwrap()
        })
        .collect();
    visited.sort();
    assert_eq!(
        visited,
        [
            "",
            "path1",
            "path1/dir1",
            "path2",
            "path2/dir2",
            "path3",
            "path3/dir3",
            "path3/dir3/subdir",
            "path3/dir3/subdir/a.txt",
            "path4",
            "path4/dir4",
            "path4/dir4/subdir",
            "path4/dir4/subdir/a.txt",
            "path5"
        ]
    );
}

/// Walks `root`, pruning and yielding as the matcher says.
fn walk(root: &Path, matcher: &GlobDirMatcher) -> Vec<String> {
    let mut found = Vec::new();
    let mut it = WalkDir::new(root).into_iter();
    while let Some(entry) = it.next() {
        let entry = entry.unwrap();
        let relative = relative_bytes(entry.path(), root);
        match matcher.walk_step(&relative, entry.file_type().is_dir()) {
            WalkStep::SkipSubtree => it.skip_current_dir(),
            WalkStep::Pass => {}
            WalkStep::Yield => found.push(String::from_utf8(relative).unwrap()),
        }
    }
    found.sort();
    found
}

/// Check that the walkdir yield the correct set of files.
#[test]
fn walk_dir() {
    let dir = tempdir().unwrap();
    make_tree(dir.path());
    let matcher = matcher_of(&PATTERNS);
    let matches = walk(dir.path(), &matcher);
    assert_eq!(
        matches,
        [
            "path1/dir1",
            "path2/dir2",
            "path3/dir3/subdir/a.txt",
            "path4/dir4",
            "path4/dir4/subdir",
            "path4/dir4/subdir/a.txt",
            "path5"
        ]
    );
}

#[test]
fn root_is_always_entered() {
    let matcher = matcher_of(&["nothing/here"]);
    assert!(matcher.match_directory(b""));
    assert!(!matcher.match_directory(b"elsewhere"));
}

#[test]
fn match_path_is_full_match() {
    let matcher = matcher_of(&PATTERNS);
    assert!(matcher.match_path(b"path1/dir1"));
    assert!(!matcher.match_path(b"path1/dir1/subdir"));
    assert!(matcher.match_path(b"path5"));
    assert!(!matcher.match_path(b"path5/dir5"));
    assert!(matcher.match_path(b"path4/dir4/subdir/a.txt"));
    assert!(!matcher.match_path(b"path3/dir3"));
}

#[test]
fn walk_step_decisions() {
    let matcher = matcher_of(&PATTERNS);
    assert_eq!(matcher.walk_step(b"path5/dir5", true), WalkStep::SkipSubtree);
    assert_eq!(matcher.walk_step(b"path5", true), WalkStep::Yield);
    assert_eq!(matcher.walk_step(b"path3/dir3", true), WalkStep::Pass);
    assert_eq!(matcher.walk_step(b"path3/dir3/subdir/a.txt", false), WalkStep::Yield);
    // A file is never skipped as a subtree, only passed over.
    assert_eq!(matcher.walk_step(b"path5/dir5", false), WalkStep::Pass);
}

#[test]
fn star_does_not_cross_separator() {
    let matcher = matcher_of(&["a/*.txt"]);
    assert!(matcher.match_path(b"a/b.txt"));
    assert!(!matcher.match_path(b"a/b/c.txt"));
    assert!(!matcher.match_directory(b"a/b"));
}

#[test]
fn non_utf8_paths_are_matched_as_bytes() {
    let matcher = matcher_of(&["a/*"]);
    assert!(matcher.match_path(b"a/\xff\xfe"));
    assert!(matcher.match_directory(b"a/\xff"));
}

#[test]
fn backslash_separator_is_normalized() {
    assert_eq!(to_slash_path(br"a\b\c.txt", b'\\'), b"a/b/c.txt".to_vec());
    assert_eq!(to_slash_path(b"a/b/c.txt", b'/'), b"a/b/c.txt".to_vec());
    let matcher = matcher_of(&["a/b/*.txt"]);
    assert!(matcher.match_path(&to_slash_path(br"a\b\c.txt", b'\\')));
    assert!(matcher.match_path(&to_slash_path(b"a/b/c.txt", b'/')));
}

#[test]
fn pruned_directory_holds_no_match() {
    let matcher = matcher_of(&PATTERNS);
    assert!(!matcher.match_directory(b"path5/dir5"));
    for below in ["path5/dir5/x", "path5/dir5/subdir/a.txt", "path5/dir5/"] {
        assert!(!matcher.match_path(below.as_bytes()));
    }
}

#[test]
fn walk_yields_each_file_once() {
    let dir = tempdir().unwrap();
    make_tree(dir.path());
    let matcher = matcher_of(&["**/a.txt"]);
    let matches = walk(dir.path(), &matcher);
    let expected: Vec<String> = FILES.iter().map(|f| f.to_string()).collect();
    assert_eq!(matches, expected);
}

#[test]
fn empty_glob_list_matches_nothing() {
    let matcher = GlobDirMatcher::new(&[]).unwrap();
    assert!(!matcher.match_path(b"a"));
    assert!(matcher.match_directory(b""));
}

#[test]
fn oversized_prefix_dfa_enters_every_directory() {
    // A small automaton prunes a directory that cannot hold a match.
    let small = matcher_of(&["*a?"]);
    assert!(!small.match_directory(b"x/y"));
    // `a` followed by a fixed number of characters makes the DFA grow
    // exponentially; past its budget the matcher enters every directory.
    let large = matcher_of(&["*a??????????????????????"]);
    assert!(large.match_directory(b"x/y"));
    assert!(large.match_directory(b"any/where/at/all"));
    assert!(large.match_path(b"za0123456789012345678901"));
    assert!(!large.match_path(b"x/y"));
}

#[test]
fn excluded_directories_are_pruned() {
    let dir = tempdir().unwrap();
    make_tree(dir.path());
    let wanted = matcher_of(&["**/a.txt"]);
    let exclude = matcher_of(&["**/dir2", "path4/**/subdir"]);
    assert_eq!(
        wanted.walk_step_excluding(&exclude, b"path2/dir2", true),
        WalkStep::SkipSubtree
    );
    assert_eq!(
        wanted.walk_step_excluding(&exclude, b"path2/dir2", false),
        WalkStep::Pass
    );
    assert_eq!(
        wanted.walk_step_excluding(&exclude, b"path1/dir1/subdir/a.txt", false),
        WalkStep::Yield
    );
    let mut found = Vec::new();
    let mut it = WalkDir::new(dir.path()).into_iter();
    while let Some(entry) = it.next() {
        let entry = entry.unwrap();
        let relative = relative_bytes(entry.path(), dir.path());
        match wanted.walk_step_excluding(&exclude, &relative, entry.file_type().is_dir()) {
            WalkStep::SkipSubtree => it.skip_current_dir(),
            WalkStep::Pass => {}
            WalkStep::Yield => found.push(String::from_utf8(relative).unwrap()),
        }
    }
    found.sort();
    assert_eq!(
        found,
        [
            "path1/dir1/subdir/a.txt",
            "path3/dir3/subdir/a.txt",
            "path5/dir5/subdir/a.txt"
        ]
    );
}

#[test]
fn glob_order_does_not_change_matches() {
    let mut reversed = PATTERNS;
    reversed.reverse();
    let forward = matcher_of(&PATTERNS);
    let backward = matcher_of(&reversed);
    for path in [
        "path1/dir1",
        "path2/dir2",
        "path3/dir3/subdir/a.txt",
        "path4/x/y",
        "path5",
        "path5/dir5",
        "other",
    ] {
        assert_eq!(forward.match_path(path.as_bytes()), backward.match_path(path.as_bytes()));
        assert_eq!(
            forward.match_directory(path.as_bytes()),
            backward.match_directory(path.as_bytes())
        );
    }
}

#[test]
fn admitted_directory_has_admitted_parent() {
    let matcher = matcher_of(&PATTERNS);
    for dir in ["path3/dir3/subdir", "path4/dir4/subdir", "path1/dir1"] {
        assert!(matcher.match_directory(dir.as_bytes()));
        let parent = &dir[..dir.rfind('/').unwrap()];
        assert!(matcher.match_directory(parent.as_bytes()));
    }
}

#[test]
fn newline_in_directory_name_under_double_star() {
    let everything = matcher_of(&["**"]);
    assert!(everything.match_path(b"\n"));
    assert!(everything.match_directory(b"\n"));
    let matcher = matcher_of(&["a/**"]);
    assert!(matcher.match_path(b"a/x\ny"));
    assert!(matcher.match_directory(b"a/x\ny"));
    assert!(matcher.match_path(b"a/x\ny/z"));

    let dir = tempdir().unwrap();
    let file = dir.path().join("a").join("x\ny").join("z");
    fs_err::create_dir_all(file.parent().unwrap()).unwrap();
    fs_err::File::create(&file).unwrap();
    let found = walk(dir.path(), &matcher);
    assert_eq!(found, ["a/x\ny", "a/x\ny/z"]);
}
