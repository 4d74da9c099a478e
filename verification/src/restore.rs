//! Checking out a commit: the files and directories that its tree puts in
//! the working directory, and the staging area that matches it.
use vstd::prelude::*;
use crate::index::Index;
use crate::objects::{dir_mode, entry_views, EntryView, GitObject, ObjectView, TreeEntry};
use crate::store::{GitError, ObjectStore};
use crate::text::{join_path, path_join, same_text};
use crate::tree::no_slash;

verus! {

/// A change to the working directory.
#[derive(PartialEq, Eq, Debug)]
pub enum WorkAction {
    /// Create the directory unless it exists.
    EnsureDir(String),
    /// Write the file with the given content.
    WriteFile(String, String),
}

/// A change to the working directory, as texts.
pub enum ActionView {
    Dir(Seq<char>),
    File(Seq<char>, Seq<char>),
}

impl View for WorkAction {
    type V = ActionView;

    open spec fn view(&self) -> ActionView {
        match self {
            WorkAction::EnsureDir(p) => ActionView::Dir(p@),
            WorkAction::WriteFile(p, c) => ActionView::File(p@, c@),
        }
    }
}

/// The views of a list of changes.
pub open spec fn action_views(s: Seq<WorkAction>) -> Seq<ActionView> {
    s.map_values(|a: WorkAction| a@)
}

/// The error of a walk as a `Result`.
pub open spec fn outcome(e: Option<GitError>) -> Result<(), GitError> {
    match e {
        Some(x) => Err(x),
        None => Ok(()),
    }
}

/// Restoring the tree `hash` under `base`: the changes made, in order, and
/// the error that stopped the walk, if any. `fuel` bounds how deep the walk
/// goes into trees; it runs out only where trees contain themselves.
pub open spec fn restore_spec(
    db: Map<Seq<char>, ObjectView>,
    hash: Seq<char>,
    base: Seq<char>,
    fuel: nat,
) -> (Seq<ActionView>, Option<GitError>)
    decreases fuel, 0int,
{
    if !db.contains_key(hash) {
        (seq![], Some(GitError::ObjectNotFound))
    } else {
        match db[hash] {
            ObjectView::Tree(es) => {
                if fuel == 0 {
                    (seq![], Some(GitError::HistoryLoop))
                } else {
                    restore_entries(db, es, 0, base, (fuel - 1) as nat)
                }
            },
            _ => (seq![], Some(GitError::NotATree)),
        }
    }
}

/// Restoring the entries `es[i..]` under `base`: a directory entry makes its
/// directory and restores its tree there; a file entry writes its blob's
/// content.
pub open spec fn restore_entries(
    db: Map<Seq<char>, ObjectView>,
    es: Seq<EntryView>,
    i: int,
    base: Seq<char>,
    fuel: nat,
) -> (Seq<ActionView>, Option<GitError>)
    decreases fuel, es.len() - i,
{
    if i < 0 || i >= es.len() {
        (seq![], None)
    } else {
        let e = es[i];
        let p = path_join(base, e.name);
        if e.mode == dir_mode() {
            let (a1, err1) = restore_spec(db, e.hash, p, fuel);
            let first = seq![ActionView::Dir(p)] + a1;
            if err1 is Some {
                (first, err1)
            } else {
                let (a2, err2) = restore_entries(db, es, i + 1, base, fuel);
                (first + a2, err2)
            }
        } else if !db.contains_key(e.hash) {
            (seq![], Some(GitError::ObjectNotFound))
        } else {
            match db[e.hash] {
                ObjectView::Blob(c) => {
                    let (a2, err2) = restore_entries(db, es, i + 1, base, fuel);
                    (seq![ActionView::File(p, c)] + a2, err2)
                },
                _ => (seq![], Some(GitError::NotABlob)),
            }
        }
    }
}

/// Adding the files of the tree `hash`, under `base`, to the staged map
/// `m`: the map reached and the error that stopped the walk, if any.
pub open spec fn index_spec(
    db: Map<Seq<char>, ObjectView>,
    hash: Seq<char>,
    base: Seq<char>,
    fuel: nat,
    m: Map<Seq<char>, Seq<char>>,
) -> (Map<Seq<char>, Seq<char>>, Option<GitError>)
    decreases fuel, 0int,
{
    if !db.contains_key(hash) {
        (m, Some(GitError::ObjectNotFound))
    } else {
        match db[hash] {
            ObjectView::Tree(es) => {
                if fuel == 0 {
                    (m, Some(GitError::HistoryLoop))
                } else {
                    index_entries(db, es, 0, base, (fuel - 1) as nat, m)
                }
            },
            _ => (m, Some(GitError::NotATree)),
        }
    }
}

/// Adding the entries `es[i..]` under `base` to `m`: a directory entry adds
/// its tree's files; a file entry records its path and blob identifier.
pub open spec fn index_entries(
    db: Map<Seq<char>, ObjectView>,
    es: Seq<EntryView>,
    i: int,
    base: Seq<char>,
    fuel: nat,
    m: Map<Seq<char>, Seq<char>>,
) -> (Map<Seq<char>, Seq<char>>, Option<GitError>)
    decreases fuel, es.len() - i,
{
    if i < 0 || i >= es.len() {
        (m, None)
    } else {
        let e = es[i];
        let p = path_join(base, e.name);
        if e.mode == dir_mode() {
            let (m1, err1) = index_spec(db, e.hash, p, fuel, m);
            if err1 is Some {
                (m1, err1)
            } else {
                index_entries(db, es, i + 1, base, fuel, m1)
            }
        } else {
            index_entries(db, es, i + 1, base, fuel, m.insert(p, e.hash))
        }
    }
}

/// The path that a change works on.
pub open spec fn action_path(a: ActionView) -> Seq<char> {
    match a {
        ActionView::Dir(p) => p,
        ActionView::File(p, _) => p,
    }
}

/// `q` names an entry directly inside the directory `d`: `d` joined with a
/// name that holds no `/`.
pub open spec fn directly_in(q: Seq<char>, d: Seq<char>) -> bool {
    exists|n: Seq<char>| no_slash(n) && #[trigger] path_join(d, n) == q
}

/// Change `i` comes before change `j` and makes the directory that `j`
/// works directly inside.
pub open spec fn made_parent(acts: Seq<ActionView>, j: int, i: int) -> bool {
    &&& 0 <= i < j
    &&& acts[i] is Dir
    &&& directly_in(action_path(acts[j]), action_path(acts[i]))
}

/// Change `j` works directly inside `base` or inside a directory that an
/// earlier change made.
pub open spec fn placed(acts: Seq<ActionView>, base: Seq<char>, j: int) -> bool {
    directly_in(action_path(acts[j]), base) || exists|i: int| #[trigger] made_parent(acts, j, i)
}

/// Every change works directly inside `base` or inside a directory made
/// before it.
pub open spec fn parents_first(acts: Seq<ActionView>, base: Seq<char>) -> bool {
    forall|j: int| 0 <= j < acts.len() ==> #[trigger] placed(acts, base, j)
}

/// No entry of a tree of the store has a name that holds `/`.
pub open spec fn plain_names(db: Map<Seq<char>, ObjectView>) -> bool {
    forall|h: Seq<char>|
        #[trigger] db.contains_key(h) ==> match db[h] {
            ObjectView::Tree(es) => forall|j: int| 0 <= j < es.len() ==> no_slash(#[trigger] es[j].name),
            _ => true,
        }
}

proof fn lemma_parents_first_concat(x: Seq<ActionView>, y: Seq<ActionView>, base: Seq<char>)
    requires
        parents_first(x, base),
        parents_first(y, base),
    ensures
        parents_first(x + y, base),
{
    let s = x + y;
    assert forall|j: int| 0 <= j < s.len() implies #[trigger] placed(s, base, j) by {
        if j < x.len() {
            assert(s[j] == x[j]);
            assert(placed(x, base, j));
            if !directly_in(action_path(x[j]), base) {
                let i = choose|i: int| #[trigger] made_parent(x, j, i);
                assert(s[i] == x[i]);
                assert(made_parent(s, j, i));
            }
        } else {
            let k = j - x.len();
            assert(s[j] == y[k]);
            assert(placed(y, base, k));
            if !directly_in(action_path(y[k]), base) {
                let i = choose|i: int| #[trigger] made_parent(y, k, i);
                assert(s[i + x.len()] == y[i]);
                assert(made_parent(s, j, i + x.len()));
            }
        }
    }
}

proof fn lemma_parents_first_nest(p: Seq<char>, a: Seq<ActionView>, base: Seq<char>)
    requires
        directly_in(p, base),
        parents_first(a, p),
    ensures
        parents_first(seq![ActionView::Dir(p)] + a, base),
{
    let s = seq![ActionView::Dir(p)] + a;
    assert forall|j: int| 0 <= j < s.len() implies #[trigger] placed(s, base, j) by {
        if j == 0 {
            assert(s[0] == ActionView::Dir(p));
        } else {
            let k = j - 1;
            assert(s[j] == a[k]);
            assert(placed(a, p, k));
            assert(s[0] == ActionView::Dir(p));
            if directly_in(action_path(a[k]), p) {
                assert(made_parent(s, j, 0));
            } else {
                let i = choose|i: int| #[trigger] made_parent(a, k, i);
                assert(s[i + 1] == a[i]);
                assert(made_parent(s, j, i + 1));
            }
        }
    }
}

/// Restoring a tree under `base` makes each directory before anything
/// inside it, given that no tree entry of the store has a name with `/`.
pub proof fn lemma_restore_parents_first(db: Map<Seq<char>, ObjectView>, h: Seq<char>, base: Seq<char>, fuel: nat)
    requires
        plain_names(db),
    ensures
        parents_first(restore_spec(db, h, base, fuel).0, base),
    decreases fuel, 0int,
{
    if db.contains_key(h) {
        match db[h] {
            ObjectView::Tree(es) => {
                if fuel > 0 {
                    lemma_restore_entries_parents_first(db, es, 0, base, (fuel - 1) as nat);
                }
            },
            _ => {},
        }
    }
}

proof fn lemma_restore_entries_parents_first(
    db: Map<Seq<char>, ObjectView>,
    es: Seq<EntryView>,
    i: int,
    base: Seq<char>,
    fuel: nat,
)
    requires
        plain_names(db),
        forall|j: int| 0 <= j < es.len() ==> no_slash(#[trigger] es[j].name),
    ensures
        parents_first(restore_entries(db, es, i, base, fuel).0, base),
    decreases fuel, es.len() - i,
{
    if 0 <= i < es.len() {
        let e = es[i];
        let p = path_join(base, e.name);
        assert(no_slash(e.name) && path_join(base, e.name) == p);
        assert(directly_in(p, base));
        if e.mode == dir_mode() {
            let (a1, err1) = restore_spec(db, e.hash, p, fuel);
            lemma_restore_parents_first(db, e.hash, p, fuel);
            lemma_parents_first_nest(p, a1, base);
            if err1 is None {
                let (a2, err2) = restore_entries(db, es, i + 1, base, fuel);
                lemma_restore_entries_parents_first(db, es, i + 1, base, fuel);
                lemma_parents_first_concat(seq![ActionView::Dir(p)] + a1, a2, base);
            }
        } else if db.contains_key(e.hash) {
            match db[e.hash] {
                ObjectView::Blob(c) => {
                    let f = seq![ActionView::File(p, c)];
                    assert(placed(f, base, 0));
                    let (a2, err2) = restore_entries(db, es, i + 1, base, fuel);
                    lemma_restore_entries_parents_first(db, es, i + 1, base, fuel);
                    lemma_parents_first_concat(f, a2, base);
                },
                _ => {},
            }
        }
    }
}

fn restore_walk(
    store: &ObjectStore,
    hash: &str,
    base: &str,
    fuel: usize,
    out: &mut Vec<WorkAction>,
) -> (r: Option<GitError>)
    requires
        store.wf(),
    ensures
        action_views(final(out)@) == action_views(old(out)@) + restore_spec(
            store@,
            hash@,
            base@,
            fuel as nat,
        ).0,
        r == restore_spec(store@, hash@, base@, fuel as nat).1,
    decreases fuel, 0int,
{
    match store.get(hash) {
        None => {
            assert(action_views(out@) =~= action_views(out@) + Seq::<ActionView>::empty());
            Some(GitError::ObjectNotFound)
        },
        Some(GitObject::Tree(es)) => {
            if fuel == 0 {
                assert(action_views(out@) =~= action_views(out@) + Seq::<ActionView>::empty());
                Some(GitError::HistoryLoop)
            } else {
                restore_entries_walk(store, es, 0, base, fuel - 1, out)
            }
        },
        Some(_) => {
            assert(action_views(out@) =~= action_views(out@) + Seq::<ActionView>::empty());
            Some(GitError::NotATree)
        },
    }
}

fn restore_entries_walk(
    store: &ObjectStore,
    es: &Vec<TreeEntry>,
    i: usize,
    base: &str,
    fuel: usize,
    out: &mut Vec<WorkAction>,
) -> (r: Option<GitError>)
    requires
        store.wf(),
        i <= es.len(),
    ensures
        action_views(final(out)@) == action_views(old(out)@) + restore_entries(
            store@,
            entry_views(es@),
            i as int,
            base@,
            fuel as nat,
        ).0,
        r == restore_entries(store@, entry_views(es@), i as int, base@, fuel as nat).1,
    decreases fuel, es.len() - i,
{
    let ghost v = entry_views(es@);
    let ghost start = action_views(out@);
    if i >= es.len() {
        assert(action_views(out@) =~= start + Seq::<ActionView>::empty());
        return None;
    }
    let e = &es[i];
    assert(v[i as int] == e@);
    let p = join_path(base, e.name.as_str());
    if same_text(e.mode.as_str(), "040000") {
        out.push(WorkAction::EnsureDir(p.clone()));
        assert(action_views(out@) =~= start + seq![ActionView::Dir(p@)]);
        let err = restore_walk(store, e.hash.as_str(), p.as_str(), fuel, out);
        match err {
            Some(x) => {
                assert(action_views(out@) =~= start + (seq![ActionView::Dir(p@)] + restore_spec(
                    store@,
                    e.hash@,
                    p@,
                    fuel as nat,
                ).0));
                Some(x)
            },
            None => {
                let r = restore_entries_walk(store, es, i + 1, base, fuel, out);
                assert(action_views(out@) =~= start + (seq![ActionView::Dir(p@)] + restore_spec(
                    store@,
                    e.hash@,
                    p@,
                    fuel as nat,
                ).0 + restore_entries(store@, v, i + 1, base@, fuel as nat).0));
                r
            },
        }
    } else {
        match store.get(e.hash.as_str()) {
            None => {
                assert(action_views(out@) =~= start + Seq::<ActionView>::empty());
                Some(GitError::ObjectNotFound)
            },
            Some(GitObject::Blob(c)) => {
                out.push(WorkAction::WriteFile(p, c.clone()));
                let ghost f = ActionView::File(path_join(base@, e.name@), c@);
                assert(action_views(out@) =~= start + seq![f]);
                let r = restore_entries_walk(store, es, i + 1, base, fuel, out);
                assert(action_views(out@) =~= start + (seq![f] + restore_entries(
                    store@,
                    v,
                    i + 1,
                    base@,
                    fuel as nat,
                ).0));
                r
            },
            Some(_) => {
                assert(action_views(out@) =~= start + Seq::<ActionView>::empty());
                Some(GitError::NotABlob)
            },
        }
    }
}

fn index_walk(
    store: &ObjectStore,
    hash: &str,
    base: &str,
    fuel: usize,
    index: &mut Index,
) -> (r: Option<GitError>)
    requires
        store.wf(),
        old(index).wf(),
    ensures
        final(index).wf(),
        final(index)@ == index_spec(store@, hash@, base@, fuel as nat, old(index)@).0,
        r == index_spec(store@, hash@, base@, fuel as nat, old(index)@).1,
    decreases fuel, 0int,
{
    match store.get(hash) {
        None => Some(GitError::ObjectNotFound),
        Some(GitObject::Tree(es)) => {
            if fuel == 0 {
                Some(GitError::HistoryLoop)
            } else {
                index_entries_walk(store, es, 0, base, fuel - 1, index)
            }
        },
        Some(_) => Some(GitError::NotATree),
    }
}

fn index_entries_walk(
    store: &ObjectStore,
    es: &Vec<TreeEntry>,
    i: usize,
    base: &str,
    fuel: usize,
    index: &mut Index,
) -> (r: Option<GitError>)
    requires
        store.wf(),
        old(index).wf(),
        i <= es.len(),
    ensures
        final(index).wf(),
        final(index)@ == index_entries(
            store@,
            entry_views(es@),
            i as int,
            base@,
            fuel as nat,
            old(index)@,
        ).0,
        r == index_entries(store@, entry_views(es@), i as int, base@, fuel as nat, old(index)@).1,
    decreases fuel, es.len() - i,
{
    if i >= es.len() {
        return None;
    }
    let e = &es[i];
    assert(entry_views(es@)[i as int] == e@);
    let p = join_path(base, e.name.as_str());
    if same_text(e.mode.as_str(), "040000") {
        match index_walk(store, e.hash.as_str(), p.as_str(), fuel, index) {
            Some(x) => Some(x),
            None => index_entries_walk(store, es, i + 1, base, fuel, index),
        }
    } else {
        index.insert(p, e.hash.clone());
        index_entries_walk(store, es, i + 1, base, fuel, index)
    }
}

/// Writes out the tree `tree_hash` under the directory `current_path`:
/// the changes to make, in order, and the error that stopped the walk, if
/// any (the changes listed before it are made all the same).
pub fn restore_tree(store: &ObjectStore, tree_hash: &str, current_path: &str) -> (r: (
    Vec<WorkAction>,
    Option<GitError>,
))
    requires
        store.wf(),
    ensures
        action_views(r.0@) == restore_spec(store@, tree_hash@, current_path@, store@.dom().len()).0,
        r.1 == restore_spec(store@, tree_hash@, current_path@, store@.dom().len()).1,
        plain_names(store@) ==> parents_first(action_views(r.0@), current_path@),
{
    let mut out: Vec<WorkAction> = Vec::new();
    let fuel = store.len();
    let err = restore_walk(store, tree_hash, current_path, fuel, &mut out);
    proof {
        if plain_names(store@) {
            lemma_restore_parents_first(store@, tree_hash@, current_path@, fuel as nat);
        }
    }
    assert(action_views(Seq::<WorkAction>::empty()) =~= Seq::<ActionView>::empty());
    assert(Seq::<ActionView>::empty() + restore_spec(store@, tree_hash@, current_path@, fuel as nat).0
        =~= restore_spec(store@, tree_hash@, current_path@, fuel as nat).0);
    (out, err)
}

/// Adds the files of the tree `tree_hash`, under `current_path`, to
/// `index`. On an error the files added before it stay added.
pub fn build_index_from_tree(
    store: &ObjectStore,
    tree_hash: &str,
    current_path: &str,
    index: &mut Index,
) -> (r: Result<(), GitError>)
    requires
        store.wf(),
        old(index).wf(),
    ensures
        final(index).wf(),
        final(index)@ == index_spec(
            store@,
            tree_hash@,
            current_path@,
            store@.dom().len(),
            old(index)@,
        ).0,
        r == outcome(
            index_spec(store@, tree_hash@, current_path@, store@.dom().len(), old(index)@).1,
        ),
{
    let fuel = store.len();
    match index_walk(store, tree_hash, current_path, fuel, index) {
        Some(x) => Err(x),
        None => Ok(()),
    }
}

/// What checking out a commit does: the changes to the working directory,
/// in order, and then the staging area to save, or the error that stopped
/// the checkout (the changes listed are made all the same).
pub struct RestorePlan {
    pub actions: Vec<WorkAction>,
    pub index: Result<Index, GitError>,
}

/// Checking out the commit `commit`: the changes made and the staging area
/// that results, or the error.
pub open spec fn checkout_spec(db: Map<Seq<char>, ObjectView>, commit: Seq<char>) -> (
    Seq<ActionView>,
    Result<Map<Seq<char>, Seq<char>>, GitError>,
) {
    if !db.contains_key(commit) {
        (seq![], Err(GitError::ObjectNotFound))
    } else {
        match db[commit] {
            ObjectView::Commit(c) => {
                let n = db.dom().len();
                let (acts, err) = restore_spec(db, c.tree, "."@, n);
                match err {
                    Some(x) => (acts, Err(x)),
                    None => {
                        let (m, err2) = index_spec(db, c.tree, Seq::empty(), n, Map::empty());
                        match err2 {
                            Some(x) => (acts, Err(x)),
                            None => (acts, Ok(m)),
                        }
                    },
                }
            },
            _ => (seq![], Err(GitError::NotACommit)),
        }
    }
}

/// Law: checking out makes each directory before anything inside it. Where
/// no tree entry of the store has a name that holds `/`, each directory and
/// file that a checkout makes lies directly in the top directory `.` or in
/// a directory that an earlier change made; so a file written at
/// `./d1/.../dk/f` comes after the directories `./d1`, ..., `./d1/.../dk`.
pub proof fn lemma_checkout_parents_first(db: Map<Seq<char>, ObjectView>, commit: Seq<char>)
    requires
        plain_names(db),
    ensures
        parents_first(checkout_spec(db, commit).0, "."@),
{
    if db.contains_key(commit) {
        match db[commit] {
            ObjectView::Commit(c) => lemma_restore_parents_first(db, c.tree, "."@, db.dom().len()),
            _ => {},
        }
    }
}

/// Checks out the commit `commit_hash`: its tree is written out under `.`
/// and the staging area is rebuilt from it, with paths relative to the
/// top directory.
pub fn restore_working_directory(store: &ObjectStore, commit_hash: &str) -> (r: RestorePlan)
    requires
        store.wf(),
    ensures
        action_views(r.actions@) == checkout_spec(store@, commit_hash@).0,
        plain_names(store@) ==> parents_first(action_views(r.actions@), "."@),
        match r.index {
            Ok(i) => i.wf() && checkout_spec(store@, commit_hash@).1 == Ok::<
                Map<Seq<char>, Seq<char>>,
                GitError,
            >(i@),
            Err(e) => checkout_spec(store@, commit_hash@).1 == Err::<
                Map<Seq<char>, Seq<char>>,
                GitError,
            >(e),
        },
{
    proof {
        if plain_names(store@) {
            lemma_checkout_parents_first(store@, commit_hash@);
        }
    }
    let commit = match store.get(commit_hash) {
        None => {
            assert(action_views(Seq::<WorkAction>::empty()) =~= Seq::<ActionView>::empty());
            return RestorePlan { actions: Vec::new(), index: Err(GitError::ObjectNotFound) };
        },
        Some(GitObject::Commit(c)) => c,
        Some(_) => {
            assert(action_views(Seq::<WorkAction>::empty()) =~= Seq::<ActionView>::empty());
            return RestorePlan { actions: Vec::new(), index: Err(GitError::NotACommit) };
        },
    };
    let (actions, err) = restore_tree(store, commit.tree.as_str(), ".");
    if let Some(x) = err {
        return RestorePlan { actions, index: Err(x) };
    }
    let mut index = Index::new();
    let top = String::new();
    match build_index_from_tree(store, commit.tree.as_str(), top.as_str(), &mut index) {
        Ok(()) => RestorePlan { actions, index: Ok(index) },
        Err(x) => RestorePlan { actions, index: Err(x) },
    }
}

} // verus!
