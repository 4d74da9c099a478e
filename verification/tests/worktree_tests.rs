use rust_git::diff::{diff_file, render_diff, DiffTag};
use rust_git::ignore::{line_pattern_of, pattern_hit, GitIgnore};
use rust_git::index::Index;
use rust_git::objects::GitObject;
use rust_git::store::{GitError, ObjectStore};
use rust_git::worktree::{add_target, clean_path, stage_file, status, FileState};

#[test]
fn clean_path_drops_a_leading_dot_slash() {
    assert_eq!(clean_path("./src/main.rs"), "src/main.rs");
    assert_eq!(clean_path("src/main.rs"), "src/main.rs");
    assert_eq!(clean_path("."), ".");
    assert_eq!(clean_path("././a"), "./a");
}

#[test]
fn ignore_patterns_from_gitignore() {
    let ig = GitIgnore::new("# comment\n\ntarget/\n*.log\r\n  build  \n[\n");
    assert!(ig.is_ignored("target/debug/x"));
    assert!(ig.is_ignored("app.log"));
    assert!(ig.is_ignored("build"));
    assert!(ig.is_ignored("build/out.o"));
    assert!(!ig.is_ignored("src/main.rs"));
    assert!(!ig.is_ignored("builder"));
    assert!(!ig.is_ignored("# comment"));
}

#[test]
fn repository_directory_is_always_ignored() {
    let ig = GitIgnore::new("");
    assert!(ig.is_ignored(".git"));
    assert!(ig.is_ignored(".git/objects/ab/cd"));
    assert!(ig.is_ignored("sub/.git/HEAD"));
    assert!(ig.is_ignored(".gitignore"));
    assert!(!ig.is_ignored("a.git"));
}

#[test]
fn add_targets() {
    let ig = GitIgnore::new("*.log\n");
    assert_eq!(add_target(&ig, "./a.txt", true), Some("a.txt".to_string()));
    assert_eq!(add_target(&ig, "./dir", false), None);
    assert_eq!(add_target(&ig, "./x.log", true), None);
    assert_eq!(add_target(&ig, "./.git/HEAD", true), None);
}

#[test]
fn staging_a_file_records_its_blob() {
    let mut index = Index::new();
    let staged = stage_file(&mut index, "f".to_string(), "hello".to_string());
    assert_eq!(staged.record, "{\"Blob\":\"hello\"}");
    assert_eq!(staged.hash, "95e9a13bafd19c43fb75bd9062b5287aeb3d2bc24ede0c6800e2c47e65c66db9");
    assert!(staged.changed);
    let again = stage_file(&mut index, "f".to_string(), "hello".to_string());
    assert!(!again.changed);
    let other = stage_file(&mut index, "f".to_string(), "bye".to_string());
    assert!(other.changed);
}

#[test]
fn status_finds_untracked_modified_and_deleted() {
    let mut index = Index::new();
    stage_file(&mut index, "a".to_string(), "A".to_string());
    stage_file(&mut index, "b".to_string(), "B".to_string());
    stage_file(&mut index, "c".to_string(), "C".to_string());
    stage_file(&mut index, "d".to_string(), "D".to_string());
    let ig = GitIgnore::new("*.log\n");
    let walk = vec![
        (".".to_string(), false),
        ("./a".to_string(), true),
        ("./new.txt".to_string(), true),
        ("./x.log".to_string(), true),
        ("./.git/HEAD".to_string(), true),
        ("./dir".to_string(), false),
        ("./b".to_string(), true),
    ];
    let states = vec![
        FileState::Content("A".to_string()),
        FileState::Content("changed".to_string()),
        FileState::Missing,
        FileState::Unreadable,
    ];
    let report = status(&index, &ig, &walk, &states);
    assert_eq!(report.untracked, vec!["new.txt".to_string()]);
    assert_eq!(report.modified, vec!["b".to_string()]);
    assert_eq!(report.deleted, vec!["c".to_string()]);
    assert_eq!(
        report.render(),
        "Changes not staged for commit:\n\tmodified: b\n\tdeleted:  c\n\nUntracked files:\n\tnew.txt\n\n"
    );
}

#[test]
fn clean_working_tree() {
    let mut index = Index::new();
    stage_file(&mut index, "a".to_string(), "A".to_string());
    let ig = GitIgnore::new("");
    let walk = vec![("./a".to_string(), true)];
    let report = status(&index, &ig, &walk, &vec![FileState::Content("A".to_string())]);
    assert!(report.modified.is_empty() && report.deleted.is_empty() && report.untracked.is_empty());
    assert_eq!(report.render(), "nothing to commit, working tree clean\n");
}

#[test]
fn only_untracked_files() {
    let index = Index::new();
    let ig = GitIgnore::new("");
    let walk = vec![("./x".to_string(), true)];
    let report = status(&index, &ig, &walk, &vec![]);
    assert_eq!(report.render(), "Untracked files:\n\tx\n\n");
}

#[test]
fn diff_of_a_changed_file() {
    let mut store = ObjectStore::new();
    let blob = GitObject::Blob("one\ntwo\n".to_string());
    let h = blob.id();
    store.insert(h.clone(), blob);
    let out = diff_file(&store, "f.txt", &h, "one\nthree\n");
    assert_eq!(
        out,
        Ok(Some(
            "diff --git a/f.txt b/f.txt\n--- a/f.txt\n+++ b/f.txt\n one\n-two\n+three\n\n".to_string()
        ))
    );
}

#[test]
fn diff_adds_a_line_end_where_one_is_missing() {
    let mut store = ObjectStore::new();
    let blob = GitObject::Blob("a".to_string());
    let h = blob.id();
    store.insert(h.clone(), blob);
    let out = diff_file(&store, "f", &h, "b").unwrap().unwrap();
    assert!(out.ends_with("-a\n+b\n\n"));
}

#[test]
fn diff_of_an_unchanged_file_is_empty() {
    let mut store = ObjectStore::new();
    let blob = GitObject::Blob("same".to_string());
    let h = blob.id();
    store.insert(h.clone(), blob);
    assert_eq!(diff_file(&store, "f", &h, "same"), Ok(None));
}

#[test]
fn diff_needs_the_staged_blob() {
    let store = ObjectStore::new();
    assert_eq!(diff_file(&store, "f", "missing", "x"), Err(GitError::ObjectNotFound));
}

#[test]
fn diff_passes_over_an_object_that_is_not_a_blob() {
    let mut store = ObjectStore::new();
    store.insert("t".to_string(), GitObject::Tree(vec![]));
    assert_eq!(diff_file(&store, "f", "t", "x"), Ok(None));
}

#[test]
fn gitignore_line_patterns() {
    assert_eq!(line_pattern_of("  target/ "), Some("target/*".to_string()));
    assert_eq!(line_pattern_of("*.o"), Some("*.o".to_string()));
    assert_eq!(line_pattern_of("   "), None);
    assert_eq!(line_pattern_of("# note"), None);
    assert_eq!(line_pattern_of(" #x"), None);
}

#[test]
fn pattern_hits() {
    assert!(pattern_hit(true, "x", "y"));
    assert!(pattern_hit(false, "target", "target"));
    assert!(pattern_hit(false, "target", "target/a"));
    assert!(!pattern_hit(false, "target", "targets"));
}

#[test]
fn invalid_glob_pattern_is_skipped() {
    let ig = GitIgnore::new("[\n");
    assert!(!ig.is_ignored("["));
    assert!(!ig.is_ignored("[/x"));
}

#[test]
fn rendering_a_difference() {
    let changes = vec![
        (DiffTag::Equal, "a\n".to_string()),
        (DiffTag::Delete, "b\n".to_string()),
        (DiffTag::Insert, "c\n".to_string()),
    ];
    assert_eq!(
        render_diff("p", &changes),
        "diff --git a/p b/p\n--- a/p\n+++ b/p\n a\n-b\n+c\n\n"
    );
}
