use rust_git::history::{is_ancestor, log, merge, MergeAction};
use rust_git::objects::{Commit, GitObject};
use rust_git::refs::{head_commit, head_for_branch, initial_head, new_commit, parse_head, HeadRef};
use rust_git::store::{GitError, ObjectStore};

fn commit(parents: &[&str], message: &str) -> GitObject {
    GitObject::Commit(Commit {
        tree: "t".to_string(),
        parents: parents.iter().map(|p| p.to_string()).collect(),
        author: "User <user@example.com>".to_string(),
        message: message.to_string(),
        timestamp: 10,
    })
}

/// c1 <- c2 <- c3, and c4 merging c3 and x (a side commit on c1).
fn graph() -> ObjectStore {
    let mut store = ObjectStore::new();
    store.insert("c1".to_string(), commit(&[], "first"));
    store.insert("c2".to_string(), commit(&["c1"], "second"));
    store.insert("c3".to_string(), commit(&["c2"], "third"));
    store.insert("x".to_string(), commit(&["c1"], "side"));
    store.insert("c4".to_string(), commit(&["x", "c3"], "merge"));
    store.insert("blob".to_string(), GitObject::Blob("b".to_string()));
    store
}

#[test]
fn a_commit_is_its_own_ancestor() {
    let store = ObjectStore::new();
    assert_eq!(is_ancestor(&store, "anything", "anything"), Ok(true));
}

#[test]
fn ancestors_through_parents() {
    let store = graph();
    assert_eq!(is_ancestor(&store, "c2", "c3"), Ok(true));
    assert_eq!(is_ancestor(&store, "c1", "c3"), Ok(true));
    assert_eq!(is_ancestor(&store, "c2", "c4"), Ok(true));
    assert_eq!(is_ancestor(&store, "c3", "c1"), Ok(false));
    assert_eq!(is_ancestor(&store, "x", "c3"), Ok(false));
}

#[test]
fn first_parent_is_an_ancestor() {
    let store = graph();
    assert_eq!(is_ancestor(&store, "x", "c4"), Ok(true));
}

#[test]
fn ancestry_through_a_missing_commit_fails() {
    let mut store = ObjectStore::new();
    store.insert("c".to_string(), commit(&["gone"], "m"));
    assert_eq!(is_ancestor(&store, "a", "c"), Err(GitError::ObjectNotFound));
}

#[test]
fn an_object_that_is_not_a_commit_has_no_ancestors() {
    let store = graph();
    assert_eq!(is_ancestor(&store, "c1", "blob"), Ok(false));
}

#[test]
fn a_commit_that_is_its_own_parent_is_reported() {
    let mut store = ObjectStore::new();
    store.insert("c".to_string(), commit(&["c"], "loop"));
    assert_eq!(is_ancestor(&store, "a", "c"), Err(GitError::HistoryLoop));
}

#[test]
fn log_follows_first_parents() {
    let store = graph();
    let walk = log(&store, Some("c4".to_string()));
    let ids: Vec<String> = walk.commits.iter().map(|c| c.0.clone()).collect();
    assert_eq!(ids, vec!["c4", "x", "c1"]);
    assert_eq!(walk.commits[1].1.message, "side");
    assert_eq!(walk.error, None);
}

#[test]
fn log_before_the_first_commit_is_empty() {
    let store = graph();
    let walk = log(&store, None);
    assert!(walk.commits.is_empty());
    assert_eq!(walk.error, None);
}

#[test]
fn log_stops_at_a_missing_commit_after_showing_the_rest() {
    let mut store = ObjectStore::new();
    store.insert("c".to_string(), commit(&["gone"], "m"));
    let walk = log(&store, Some("c".to_string()));
    assert_eq!(walk.commits.len(), 1);
    assert_eq!(walk.error, Some(GitError::ObjectNotFound));
}

#[test]
fn log_stops_at_an_object_that_is_not_a_commit() {
    let mut store = ObjectStore::new();
    store.insert("c".to_string(), commit(&["b"], "m"));
    store.insert("b".to_string(), GitObject::Blob("x".to_string()));
    let walk = log(&store, Some("c".to_string()));
    assert_eq!(walk.commits.len(), 1);
    assert_eq!(walk.error, None);
}

#[test]
fn log_of_a_loop_is_reported() {
    let mut store = ObjectStore::new();
    store.insert("c".to_string(), commit(&["c"], "m"));
    let walk = log(&store, Some("c".to_string()));
    assert_eq!(walk.commits.len(), 1);
    assert_eq!(walk.error, Some(GitError::HistoryLoop));
}

#[test]
fn merge_outcomes() {
    let store = graph();
    assert_eq!(merge(&store, None, Some("c3".to_string())), Err(GitError::NothingToMerge));
    assert_eq!(merge(&store, Some("c1".to_string()), None), Err(GitError::NoSuchBranch));
    assert_eq!(merge(&store, Some("c3".to_string()), Some("c3\n".to_string())), Ok(MergeAction::UpToDate));
    assert_eq!(
        merge(&store, Some("c1".to_string()), Some(" c3 \n".to_string())),
        Ok(MergeAction::FastForward("c3".to_string()))
    );
    assert_eq!(merge(&store, Some("c3".to_string()), Some("x".to_string())), Err(GitError::NonFastForward));
    assert_eq!(merge(&store, Some("c1".to_string()), Some("gone".to_string())), Err(GitError::ObjectNotFound));
}

#[test]
fn error_messages() {
    assert_eq!(GitError::NotACommit.message(), "Not a commit");
    assert_eq!(GitError::NothingToMerge.message(), "Nothing to merge into");
    assert_eq!(GitError::NonFastForward.message(), "Non-fast-forward merge not supported yet");
}

#[test]
fn head_pointing_at_a_branch() {
    assert_eq!(parse_head("ref: refs/heads/master\n"), HeadRef::Symbolic("refs/heads/master".to_string()));
    assert_eq!(parse_head("  ref: refs/heads/dev  "), HeadRef::Symbolic("refs/heads/dev".to_string()));
}

#[test]
fn detached_head() {
    assert_eq!(parse_head("abc123\n"), HeadRef::Detached("abc123".to_string()));
    assert_eq!(parse_head("ref:x"), HeadRef::Detached("ref:x".to_string()));
}

#[test]
fn current_commit_from_head() {
    let head = parse_head("ref: refs/heads/master\n");
    assert_eq!(head_commit(&head, None), None);
    assert_eq!(head_commit(&head, Some("c9\n".to_string())), Some("c9".to_string()));
    let detached = parse_head("c7");
    assert_eq!(head_commit(&detached, None), Some("c7".to_string()));
}

#[test]
fn head_contents() {
    assert_eq!(head_for_branch("dev"), "ref: refs/heads/dev\n");
    assert_eq!(initial_head(), "ref: refs/heads/master\n");
}

#[test]
fn new_commit_has_fixed_author_and_one_parent() {
    let c = new_commit("t".to_string(), Some("p".to_string()), "msg".to_string(), 5);
    assert_eq!(c.author, "User <user@example.com>");
    assert_eq!(c.parents, vec!["p".to_string()]);
    let first = new_commit("t".to_string(), None, "msg".to_string(), 5);
    assert!(first.parents.is_empty());
}

#[test]
fn ancestry_is_transitive() {
    let store = graph();
    assert_eq!(is_ancestor(&store, "c1", "x"), Ok(true));
    assert_eq!(is_ancestor(&store, "x", "c4"), Ok(true));
    assert_eq!(is_ancestor(&store, "c1", "c4"), Ok(true));
    assert_eq!(is_ancestor(&store, "c2", "c3"), Ok(true));
    assert_eq!(is_ancestor(&store, "c3", "c4"), Ok(true));
    assert_eq!(is_ancestor(&store, "c2", "c4"), Ok(true));
}

#[test]
fn written_commit_reads_back_as_head() {
    let head = parse_head("ref: refs/heads/dev\n");
    let h = "0123abcd".to_string();
    assert_eq!(head_commit(&head, Some(h.clone())), Some(h.clone()));
    let detached = parse_head(&h);
    assert_eq!(detached, HeadRef::Detached(h.clone()));
    assert_eq!(head_commit(&detached, None), Some(h));
}
