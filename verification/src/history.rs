//! Walking the commit graph: ancestry, the first-parent history that `log`
//! shows, and what a merge does.
use vstd::prelude::*;
use crate::cycles::{commit_cycle, lemma_ancestor_loop_chain, lemma_parent_chain_cycle, parent_chain};
use crate::objects::{texts, Commit, CommitView, GitObject, ObjectView};
use crate::store::{GitError, ObjectStore};
use crate::text::{trim_spec, trim_text};

verus! {

/// Whether `a` is `d` or an ancestor of it, looking through the parents of
/// each commit in order. A missing object is an error; an object that is
/// not a commit has no ancestors. `fuel` bounds how many commits deep the
/// walk goes; it runs out only where commits are their own ancestors.
pub open spec fn ancestor_spec(
    db: Map<Seq<char>, ObjectView>,
    a: Seq<char>,
    d: Seq<char>,
    fuel: nat,
) -> Result<bool, GitError>
    decreases fuel, 0int,
{
    if a == d {
        Ok(true)
    } else if !db.contains_key(d) {
        Err(GitError::ObjectNotFound)
    } else {
        match db[d] {
            ObjectView::Commit(c) => {
                if fuel == 0 {
                    Err(GitError::HistoryLoop)
                } else {
                    parents_spec(db, a, c.parents, 0, (fuel - 1) as nat)
                }
            },
            _ => Ok(false),
        }
    }
}

/// Whether `a` is an ancestor of one of `ps[i..]`, tried in order; the
/// first error stops the search.
pub open spec fn parents_spec(
    db: Map<Seq<char>, ObjectView>,
    a: Seq<char>,
    ps: Seq<Seq<char>>,
    i: int,
    fuel: nat,
) -> Result<bool, GitError>
    decreases fuel, ps.len() - i,
{
    if i < 0 || i >= ps.len() {
        Ok(false)
    } else {
        match ancestor_spec(db, a, ps[i], fuel) {
            Err(e) => Err(e),
            Ok(true) => Ok(true),
            Ok(false) => parents_spec(db, a, ps, i + 1, fuel),
        }
    }
}

fn ancestor_walk(store: &ObjectStore, a: &str, d: &str, fuel: usize) -> (r: Result<bool, GitError>)
    requires
        store.wf(),
    ensures
        r == ancestor_spec(store@, a@, d@, fuel as nat),
    decreases fuel, 0int,
{
    if crate::text::same_text(a, d) {
        return Ok(true);
    }
    match store.get(d) {
        None => Err(GitError::ObjectNotFound),
        Some(GitObject::Commit(c)) => {
            if fuel == 0 {
                Err(GitError::HistoryLoop)
            } else {
                parents_walk(store, a, &c.parents, 0, fuel - 1)
            }
        },
        Some(_) => Ok(false),
    }
}

fn parents_walk(store: &ObjectStore, a: &str, ps: &Vec<String>, i: usize, fuel: usize) -> (r: Result<
    bool,
    GitError,
>)
    requires
        store.wf(),
        i <= ps.len(),
    ensures
        r == parents_spec(store@, a@, texts(ps@), i as int, fuel as nat),
    decreases fuel, ps.len() - i,
{
    if i >= ps.len() {
        return Ok(false);
    }
    assert(texts(ps@)[i as int] == ps@[i as int]@);
    match ancestor_walk(store, a, ps[i].as_str(), fuel) {
        Err(e) => Err(e),
        Ok(true) => Ok(true),
        Ok(false) => parents_walk(store, a, ps, i + 1, fuel),
    }
}

/// Whether the commit `ancestor` is `descendant` or one of its ancestors.
pub fn is_ancestor(store: &ObjectStore, ancestor: &str, descendant: &str) -> (r: Result<
    bool,
    GitError,
>)
    requires
        store.wf(),
    ensures
        r == ancestor_spec(store@, ancestor@, descendant@, store@.dom().len()),
{
    let fuel = store.len();
    ancestor_walk(store, ancestor, descendant, fuel)
}

/// Law: every commit is its own ancestor, whatever the store holds.
pub proof fn lemma_ancestor_reflexive(db: Map<Seq<char>, ObjectView>, c: Seq<char>, fuel: nat)
    ensures
        ancestor_spec(db, c, c, fuel) == Ok::<bool, GitError>(true),
{
}

/// Law: the first parent of a stored commit is one of its ancestors.
pub proof fn lemma_first_parent_is_ancestor(
    db: Map<Seq<char>, ObjectView>,
    d: Seq<char>,
    c: CommitView,
    fuel: nat,
)
    requires
        db.contains_key(d),
        db[d] == ObjectView::Commit(c),
        c.parents.len() > 0,
        fuel > 0,
    ensures
        ancestor_spec(db, c.parents[0], d, fuel) == Ok::<bool, GitError>(true),
{
    let a = c.parents[0];
    if a != d {
        assert(ancestor_spec(db, a, a, (fuel - 1) as nat) == Ok::<bool, GitError>(true));
        assert(parents_spec(db, a, c.parents, 0, (fuel - 1) as nat) == Ok::<bool, GitError>(true));
    }
}

proof fn lemma_ancestor_fuel(db: Map<Seq<char>, ObjectView>, a: Seq<char>, d: Seq<char>, f1: nat, f2: nat)
    requires
        f1 <= f2,
        ancestor_spec(db, a, d, f1) != Err::<bool, GitError>(GitError::HistoryLoop),
    ensures
        ancestor_spec(db, a, d, f2) == ancestor_spec(db, a, d, f1),
    decreases f1, 0int,
{
    if a != d && db.contains_key(d) {
        match db[d] {
            ObjectView::Commit(c) => {
                if f1 > 0 {
                    lemma_parents_fuel(db, a, c.parents, 0, (f1 - 1) as nat, (f2 - 1) as nat);
                }
            },
            _ => {},
        }
    }
}

proof fn lemma_parents_fuel(
    db: Map<Seq<char>, ObjectView>,
    a: Seq<char>,
    ps: Seq<Seq<char>>,
    i: int,
    f1: nat,
    f2: nat,
)
    requires
        f1 <= f2,
        parents_spec(db, a, ps, i, f1) != Err::<bool, GitError>(GitError::HistoryLoop),
    ensures
        parents_spec(db, a, ps, i, f2) == parents_spec(db, a, ps, i, f1),
    decreases f1, ps.len() - i,
{
    if 0 <= i < ps.len() {
        lemma_ancestor_fuel(db, a, ps[i], f1, f2);
        if ancestor_spec(db, a, ps[i], f1) == Ok::<bool, GitError>(false) {
            lemma_parents_fuel(db, a, ps, i + 1, f1, f2);
        }
    }
}

/// A search that finds no `b` without error also meets no error when it
/// looks for `a` instead: it walks the same commits.
proof fn lemma_ancestor_same_walk(db: Map<Seq<char>, ObjectView>, a: Seq<char>, b: Seq<char>, d: Seq<char>, f: nat)
    requires
        ancestor_spec(db, b, d, f) == Ok::<bool, GitError>(false),
    ensures
        ancestor_spec(db, a, d, f) is Ok,
    decreases f, 0int,
{
    if a != d {
        match db[d] {
            ObjectView::Commit(c) => lemma_parents_same_walk(db, a, b, c.parents, 0, (f - 1) as nat),
            _ => {},
        }
    }
}

proof fn lemma_parents_same_walk(
    db: Map<Seq<char>, ObjectView>,
    a: Seq<char>,
    b: Seq<char>,
    ps: Seq<Seq<char>>,
    i: int,
    f: nat,
)
    requires
        parents_spec(db, b, ps, i, f) == Ok::<bool, GitError>(false),
    ensures
        parents_spec(db, a, ps, i, f) is Ok,
    decreases f, ps.len() - i,
{
    if 0 <= i < ps.len() {
        lemma_ancestor_same_walk(db, a, b, ps[i], f);
        lemma_parents_same_walk(db, a, b, ps, i + 1, f);
    }
}

/// The last commit of `pre`, if any, has `x` among its parents.
spec fn leads_to(db: Map<Seq<char>, ObjectView>, pre: Seq<Seq<char>>, x: Seq<char>) -> bool {
    pre.len() > 0 ==> match db[pre.last()] {
        ObjectView::Commit(c) => c.parents.contains(x),
        _ => false,
    }
}

proof fn lemma_chain_join(db: Map<Seq<char>, ObjectView>, pre: Seq<Seq<char>>, s: Seq<Seq<char>>)
    requires
        parent_chain(db, pre),
        parent_chain(db, s),
        s.len() > 0,
        leads_to(db, pre, s[0]),
    ensures
        parent_chain(db, pre + s),
{
    let t = pre + s;
    assert forall|i: int| 0 <= i < t.len() implies db.contains_key(#[trigger] t[i]) && db[t[i]] is Commit by {
        if i < pre.len() {
            assert(t[i] == pre[i]);
        } else {
            assert(t[i] == s[i - pre.len()]);
        }
    }
    assert forall|i: int| 0 <= i < t.len() - 1 implies match db[#[trigger] t[i]] {
        ObjectView::Commit(c) => c.parents.contains(t[i + 1]),
        _ => false,
    } by {
        if i < pre.len() - 1 {
            assert(t[i] == pre[i] && t[i + 1] == pre[i + 1]);
        } else if i == pre.len() - 1 {
            assert(t[i] == pre.last() && t[i + 1] == s[0]);
        } else {
            assert(t[i] == s[i - pre.len()] && t[i + 1] == s[i - pre.len() + 1]);
        }
    }
}

/// Searching for `a` from `x`, reached by the walk `pre` with `f` steps of
/// depth left, finds it wherever the search for `b` does.
proof fn lemma_transitive_walk(
    db: Map<Seq<char>, ObjectView>,
    a: Seq<char>,
    b: Seq<char>,
    x: Seq<char>,
    f: nat,
    pre: Seq<Seq<char>>,
)
    requires
        db.dom().finite(),
        !commit_cycle(db),
        ancestor_spec(db, a, b, db.dom().len()) == Ok::<bool, GitError>(true),
        ancestor_spec(db, b, x, f) == Ok::<bool, GitError>(true),
        pre.len() + f == db.dom().len(),
        parent_chain(db, pre),
        leads_to(db, pre, x),
    ensures
        ancestor_spec(db, a, x, f) == Ok::<bool, GitError>(true),
    decreases f, 0int,
{
    if a == x {
    } else if b == x {
        if ancestor_spec(db, a, b, f) == Err::<bool, GitError>(GitError::HistoryLoop) {
            let s = lemma_ancestor_loop_chain(db, a, b, f);
            lemma_chain_join(db, pre, s);
            lemma_parent_chain_cycle(db, pre + s);
        }
        lemma_ancestor_fuel(db, a, b, f, db.dom().len());
    } else {
        match db[x] {
            ObjectView::Commit(c) => {
                let pre2 = pre.push(x);
                lemma_chain_join(db, pre, seq![x]);
                assert(pre + seq![x] == pre2);
                assert(pre2.last() == x);
                lemma_transitive_parents(db, a, b, c.parents, 0, (f - 1) as nat, pre2);
            },
            _ => {},
        }
    }
}

proof fn lemma_transitive_parents(
    db: Map<Seq<char>, ObjectView>,
    a: Seq<char>,
    b: Seq<char>,
    ps: Seq<Seq<char>>,
    i: int,
    f: nat,
    pre: Seq<Seq<char>>,
)
    requires
        db.dom().finite(),
        !commit_cycle(db),
        ancestor_spec(db, a, b, db.dom().len()) == Ok::<bool, GitError>(true),
        parents_spec(db, b, ps, i, f) == Ok::<bool, GitError>(true),
        pre.len() + f == db.dom().len(),
        parent_chain(db, pre),
        pre.len() > 0,
        db[pre.last()] matches ObjectView::Commit(c) && c.parents == ps,
    ensures
        parents_spec(db, a, ps, i, f) == Ok::<bool, GitError>(true),
    decreases f, ps.len() - i,
{
    assert(0 <= i < ps.len());
    assert(ps.contains(ps[i]));
    match ancestor_spec(db, b, ps[i], f) {
        Ok(true) => {
            lemma_transitive_walk(db, a, b, ps[i], f, pre);
        },
        Ok(false) => {
            lemma_ancestor_same_walk(db, a, b, ps[i], f);
            if ancestor_spec(db, a, ps[i], f) == Ok::<bool, GitError>(false) {
                lemma_transitive_parents(db, a, b, ps, i + 1, f, pre);
            }
        },
        Err(_) => {},
    }
}

/// Law: ancestry is transitive. In a store where no commit is its own
/// ancestor, if `a` is an ancestor of `b` and `b` one of `c`, then `a` is
/// one of `c`.
pub proof fn lemma_ancestor_transitive(db: Map<Seq<char>, ObjectView>, a: Seq<char>, b: Seq<char>, c: Seq<char>)
    requires
        db.dom().finite(),
        !commit_cycle(db),
        ancestor_spec(db, a, b, db.dom().len()) == Ok::<bool, GitError>(true),
        ancestor_spec(db, b, c, db.dom().len()) == Ok::<bool, GitError>(true),
    ensures
        ancestor_spec(db, a, c, db.dom().len()) == Ok::<bool, GitError>(true),
{
    lemma_transitive_walk(db, a, b, c, db.dom().len(), Seq::empty());
}

/// The first parent of a commit, if it has parents.
pub open spec fn first_parent(c: CommitView) -> Option<Seq<char>> {
    if c.parents.len() > 0 {
        Some(c.parents[0])
    } else {
        None
    }
}

/// The commits that `log` shows from `cur`: each commit with its
/// identifier, following first parents until a commit without parents or an
/// object that is not a commit; and the error that stopped the walk, if
/// any. `fuel` runs out only where the first-parent chain comes back on
/// itself.
pub open spec fn history_spec(db: Map<Seq<char>, ObjectView>, cur: Option<Seq<char>>, fuel: nat) -> (
    Seq<(Seq<char>, CommitView)>,
    Option<GitError>,
)
    decreases fuel,
{
    match cur {
        None => (seq![], None),
        Some(h) => {
            if !db.contains_key(h) {
                (seq![], Some(GitError::ObjectNotFound))
            } else {
                match db[h] {
                    ObjectView::Commit(c) => {
                        if fuel == 0 {
                            (seq![], Some(GitError::HistoryLoop))
                        } else {
                            let (rest, e) = history_spec(db, first_parent(c), (fuel - 1) as nat);
                            (seq![(h, c)] + rest, e)
                        }
                    },
                    _ => (seq![], None),
                }
            }
        },
    }
}

/// Law: the history that `log` shows starts at the commit it is given and
/// goes from each commit to its first parent; every commit listed is stored
/// under its identifier.
pub proof fn lemma_history_chain(db: Map<Seq<char>, ObjectView>, cur: Option<Seq<char>>, fuel: nat)
    ensures
        history_spec(db, cur, fuel).0.len() > 0 ==> cur == Some(history_spec(db, cur, fuel).0[0].0),
        forall|i: int|
            0 <= i < history_spec(db, cur, fuel).0.len() ==> db.contains_key(
                #[trigger] history_spec(db, cur, fuel).0[i].0,
            ) && db[history_spec(db, cur, fuel).0[i].0] == ObjectView::Commit(
                history_spec(db, cur, fuel).0[i].1,
            ),
        forall|i: int|
            0 <= i < history_spec(db, cur, fuel).0.len() - 1 ==> first_parent(
                #[trigger] history_spec(db, cur, fuel).0[i].1,
            ) == Some(history_spec(db, cur, fuel).0[i + 1].0),
    decreases fuel,
{
    match cur {
        None => {},
        Some(h) => {
            if db.contains_key(h) {
                match db[h] {
                    ObjectView::Commit(c) => {
                        if fuel > 0 {
                            let next = first_parent(c);
                            lemma_history_chain(db, next, (fuel - 1) as nat);
                            let rest = history_spec(db, next, (fuel - 1) as nat).0;
                            let all = history_spec(db, cur, fuel).0;
                            assert(all == seq![(h, c)] + rest);
                            assert forall|i: int| 0 <= i < all.len() implies db.contains_key(
                                #[trigger] all[i].0,
                            ) && db[all[i].0] == ObjectView::Commit(all[i].1) by {
                                if i > 0 {
                                    assert(all[i] == rest[i - 1]);
                                }
                            }
                            assert forall|i: int| 0 <= i < all.len() - 1 implies first_parent(
                                #[trigger] all[i].1,
                            ) == Some(all[i + 1].0) by {
                                if i > 0 {
                                    assert(all[i] == rest[i - 1]);
                                    assert(all[i + 1] == rest[i]);
                                } else {
                                    assert(all[1] == rest[0]);
                                }
                            }
                        }
                    },
                    _ => {},
                }
            }
        },
    }
}

/// The commits that `log` shows, newest first.
pub struct LogWalk {
    pub commits: Vec<(String, Commit)>,
    pub error: Option<GitError>,
}

/// The views of the commits of a walk.
pub open spec fn commit_views(s: Seq<(String, Commit)>) -> Seq<(Seq<char>, CommitView)> {
    s.map_values(|e: (String, Commit)| (e.0@, e.1@))
}

/// The text of an optional identifier.
pub open spec fn opt_view(o: Option<String>) -> Option<Seq<char>> {
    match o {
        Some(h) => Some(h@),
        None => None,
    }
}

/// The first-parent history from the commit `head` (none before the first
/// commit), newest first, and the error that stopped it, if any (the
/// commits listed are shown all the same).
pub fn log(store: &ObjectStore, head: Option<String>) -> (r: LogWalk)
    requires
        store.wf(),
    ensures
        commit_views(r.commits@) == history_spec(store@, opt_view(head), store@.dom().len()).0,
        r.error == history_spec(store@, opt_view(head), store@.dom().len()).1,
{
    let mut commits: Vec<(String, Commit)> = Vec::new();
    let mut current = head;
    let mut fuel = store.len();
    let mut error: Option<GitError> = None;
    let ghost total = history_spec(store@, opt_view(current), fuel as nat);
    assert(commit_views(commits@) + total.0 =~= total.0);
    loop
        invariant_except_break
            store.wf(),
            total.0 == commit_views(commits@) + history_spec(store@, opt_view(current), fuel as nat).0,
            total.1 == history_spec(store@, opt_view(current), fuel as nat).1,
        ensures
            commit_views(commits@) == total.0,
            error == total.1,
        decreases fuel,
    {
        let ghost rest = history_spec(store@, opt_view(current), fuel as nat);
        let h = match current {
            None => {
                assert(commit_views(commits@) =~= commit_views(commits@) + rest.0);
                error = None;
                break;
            },
            Some(h) => h,
        };
        match store.get(h.as_str()) {
            None => {
                assert(commit_views(commits@) =~= commit_views(commits@) + rest.0);
                error = Some(GitError::ObjectNotFound);
                break;
            },
            Some(GitObject::Commit(c)) => {
                if fuel == 0 {
                    assert(commit_views(commits@) =~= commit_views(commits@) + rest.0);
                    error = Some(GitError::HistoryLoop);
                    break;
                }
                let next = if c.parents.len() > 0 {
                    Some(c.parents[0].clone())
                } else {
                    None
                };
                assert(opt_view(next) == first_parent(c@));
                let ghost before = commit_views(commits@);
                let ghost hv = h@;
                let ghost cv = c@;
                commits.push((h, c.duplicate()));
                assert(commit_views(commits@) =~= before.push((hv, cv)));
                current = next;
                fuel = fuel - 1;
                assert(before + rest.0 =~= commit_views(commits@) + history_spec(
                    store@,
                    opt_view(current),
                    fuel as nat,
                ).0);
            },
            Some(_) => {
                assert(commit_views(commits@) =~= commit_views(commits@) + rest.0);
                error = None;
                break;
            },
        }
    }
    LogWalk { commits, error }
}

/// What a merge does when it does not fail.
#[derive(PartialEq, Eq, Debug)]
pub enum MergeAction {
    /// The branch is the current commit already.
    UpToDate,
    /// The current commit is an ancestor of the branch, which is now checked
    /// out: its commit identifier.
    FastForward(String),
}

/// The result of merging the branch whose reference holds `branch` into the
/// current commit `head`: fails before the first commit and for a branch
/// that does not exist; the branch's commit is the trimmed content of its
/// reference; only a fast-forward is done.
pub open spec fn merge_spec(
    db: Map<Seq<char>, ObjectView>,
    head: Option<Seq<char>>,
    branch: Option<Seq<char>>,
) -> Result<Option<Seq<char>>, GitError> {
    match head {
        None => Err(GitError::NothingToMerge),
        Some(h) => match branch {
            None => Err(GitError::NoSuchBranch),
            Some(content) => {
                let b = trim_spec(content);
                if h == b {
                    Ok(None)
                } else {
                    match ancestor_spec(db, h, b, db.dom().len()) {
                        Err(e) => Err(e),
                        Ok(true) => Ok(Some(b)),
                        Ok(false) => Err(GitError::NonFastForward),
                    }
                }
            },
        },
    }
}

/// The only ways a search for an ancestor fails: a missing object, or the
/// bound on depth running out.
pub proof fn lemma_ancestor_errors(db: Map<Seq<char>, ObjectView>, a: Seq<char>, d: Seq<char>, f: nat)
    ensures
        ancestor_spec(db, a, d, f) matches Err(e) ==> e == GitError::ObjectNotFound || e
            == GitError::HistoryLoop,
    decreases f, 0int,
{
    if a != d && db.contains_key(d) {
        match db[d] {
            ObjectView::Commit(c) => {
                if f > 0 {
                    lemma_parents_errors(db, a, c.parents, 0, (f - 1) as nat);
                }
            },
            _ => {},
        }
    }
}

proof fn lemma_parents_errors(db: Map<Seq<char>, ObjectView>, a: Seq<char>, ps: Seq<Seq<char>>, i: int, f: nat)
    ensures
        parents_spec(db, a, ps, i, f) matches Err(e) ==> e == GitError::ObjectNotFound || e
            == GitError::HistoryLoop,
    decreases f, ps.len() - i,
{
    if 0 <= i < ps.len() {
        lemma_ancestor_errors(db, a, ps[i], f);
        lemma_parents_errors(db, a, ps, i + 1, f);
    }
}

/// Law: what a merge does follows from ancestry. It fast-forwards only to
/// the commit that the branch names, where that is not the current commit
/// and the current commit is its ancestor; it reports "up to date" only
/// where the branch names the current commit; it refuses as not a
/// fast-forward only where the current commit is not an ancestor of the
/// branch's commit.
pub proof fn lemma_merge_outcomes(
    db: Map<Seq<char>, ObjectView>,
    head: Option<Seq<char>>,
    branch: Option<Seq<char>>,
)
    ensures
        merge_spec(db, head, branch) matches Ok(Some(b)) ==> head is Some && branch is Some && b
            == trim_spec(branch.unwrap()) && b != head.unwrap() && ancestor_spec(
            db,
            head.unwrap(),
            b,
            db.dom().len(),
        ) == Ok::<bool, GitError>(true),
        merge_spec(db, head, branch) == Ok::<Option<Seq<char>>, GitError>(None) ==> head is Some
            && branch is Some && head.unwrap() == trim_spec(branch.unwrap()),
        merge_spec(db, head, branch) == Err::<Option<Seq<char>>, GitError>(GitError::NonFastForward)
            ==> head is Some && branch is Some && ancestor_spec(
            db,
            head.unwrap(),
            trim_spec(branch.unwrap()),
            db.dom().len(),
        ) == Ok::<bool, GitError>(false),
{
    if head is Some && branch is Some {
        let h = head.unwrap();
        let b = trim_spec(branch.unwrap());
        lemma_ancestor_errors(db, h, b, db.dom().len());
        if h != b {
            match ancestor_spec(db, h, b, db.dom().len()) {
                Ok(true) => assert(merge_spec(db, head, branch) == Ok::<Option<Seq<char>>, GitError>(Some(b))),
                Ok(false) => assert(merge_spec(db, head, branch) == Err::<Option<Seq<char>>, GitError>(
                    GitError::NonFastForward,
                )),
                Err(e) => assert(merge_spec(db, head, branch) == Err::<Option<Seq<char>>, GitError>(e)),
            }
        }
    }
}

/// Each commit of `s` but the last is stored and has the next among its
/// parents.
spec fn linked(db: Map<Seq<char>, ObjectView>, s: Seq<Seq<char>>) -> bool {
    forall|i: int|
        0 <= i < s.len() - 1 ==> db.contains_key(#[trigger] s[i]) && match db[s[i]] {
            ObjectView::Commit(c) => c.parents.contains(s[i + 1]),
            _ => false,
        }
}

proof fn lemma_ancestor_witness(db: Map<Seq<char>, ObjectView>, a: Seq<char>, d: Seq<char>, f: nat) -> (s: Seq<
    Seq<char>,
>)
    requires
        ancestor_spec(db, a, d, f) == Ok::<bool, GitError>(true),
    ensures
        s.len() >= 1,
        s[0] == d,
        s.last() == a,
        linked(db, s),
    decreases f, 0int,
{
    if a == d {
        seq![d]
    } else {
        match db[d] {
            ObjectView::Commit(c) => {
                let t = lemma_parents_witness(db, a, c.parents, 0, (f - 1) as nat);
                let s = seq![d] + t;
                assert forall|i: int| 0 <= i < s.len() - 1 implies db.contains_key(#[trigger] s[i])
                    && match db[s[i]] {
                    ObjectView::Commit(c) => c.parents.contains(s[i + 1]),
                    _ => false,
                } by {
                    if i > 0 {
                        assert(s[i] == t[i - 1] && s[i + 1] == t[i]);
                    } else {
                        assert(s[1] == t[0]);
                    }
                }
                s
            },
            _ => {
                assert(false);
                seq![d]
            },
        }
    }
}

proof fn lemma_parents_witness(
    db: Map<Seq<char>, ObjectView>,
    a: Seq<char>,
    ps: Seq<Seq<char>>,
    i: int,
    f: nat,
) -> (s: Seq<Seq<char>>)
    requires
        parents_spec(db, a, ps, i, f) == Ok::<bool, GitError>(true),
    ensures
        s.len() >= 1,
        ps.contains(s[0]),
        s.last() == a,
        linked(db, s),
    decreases f, ps.len() - i,
{
    if ancestor_spec(db, a, ps[i], f) == Ok::<bool, GitError>(true) {
        let s = lemma_ancestor_witness(db, a, ps[i], f);
        assert(ps[i] == s[0]);
        s
    } else {
        lemma_parents_witness(db, a, ps, i + 1, f)
    }
}

/// Law: in a store where no commit is its own ancestor, two commits that
/// are each other's ancestors are the same commit.
pub proof fn lemma_ancestor_antisymmetric(
    db: Map<Seq<char>, ObjectView>,
    a: Seq<char>,
    b: Seq<char>,
    f1: nat,
    f2: nat,
)
    requires
        !commit_cycle(db),
        ancestor_spec(db, a, b, f1) == Ok::<bool, GitError>(true),
        ancestor_spec(db, b, a, f2) == Ok::<bool, GitError>(true),
    ensures
        a == b,
{
    if a != b {
        let s1 = lemma_ancestor_witness(db, a, b, f1);
        let s2 = lemma_ancestor_witness(db, b, a, f2);
        assert(s1.len() >= 2 && s2.len() >= 2);
        let s = s1 + s2.drop_first();
        assert(s[0] == b);
        assert(s.last() == s2.last());
        assert forall|i: int| 0 <= i < s.len() implies db.contains_key(#[trigger] s[i]) && db[s[i]] is Commit by {
            if i < s1.len() - 1 {
                assert(s[i] == s1[i]);
                assert(db.contains_key(s1[i]));
            } else if i < s.len() - 1 {
                assert(s[i] == s2[i - s1.len() + 1]);
                assert(db.contains_key(s2[i - s1.len() + 1]));
            } else {
                assert(s[i] == b && s1[0] == b);
                assert(db.contains_key(s1[0]));
            }
        }
        assert forall|i: int| 0 <= i < s.len() - 1 implies match db[#[trigger] s[i]] {
            ObjectView::Commit(c) => c.parents.contains(s[i + 1]),
            _ => false,
        } by {
            if i < s1.len() - 1 {
                assert(s[i] == s1[i] && s[i + 1] == s1[i + 1]);
                assert(db.contains_key(s1[i]));
            } else {
                let k = i - s1.len() + 1;
                assert(s[i] == s2[k] && s[i + 1] == s2[k + 1]);
                assert(db.contains_key(s2[k]));
            }
        }
        assert(parent_chain(db, s) && s.len() >= 2 && s[0] == s.last());
    }
}

/// Law: a merge never moves back. In a store where no commit is its own
/// ancestor, merging a branch whose commit is an ancestor of the current
/// commit (such as a branch that is behind it) never fast-forwards.
pub proof fn lemma_merge_never_goes_back(db: Map<Seq<char>, ObjectView>, h: Seq<char>, branch: Seq<char>)
    requires
        !commit_cycle(db),
        ancestor_spec(db, trim_spec(branch), h, db.dom().len()) == Ok::<bool, GitError>(true),
    ensures
        !(merge_spec(db, Some(h), Some(branch)) matches Ok(Some(_))),
{
    let b = trim_spec(branch);
    if merge_spec(db, Some(h), Some(branch)) matches Ok(Some(_)) {
        lemma_ancestor_antisymmetric(db, h, b, db.dom().len(), db.dom().len());
    }
}

/// Decides a merge of the branch whose reference file holds
/// `branch_content` (none where the branch does not exist) into the current
/// commit `head` (none before the first commit): `UpToDate` where they are
/// the same commit; `FastForward` to the branch's commit where the current
/// commit is its ancestor.
pub fn merge(store: &ObjectStore, head: Option<String>, branch_content: Option<String>) -> (r: Result<
    MergeAction,
    GitError,
>)
    requires
        store.wf(),
    ensures
        match r {
            Ok(MergeAction::UpToDate) => merge_spec(store@, opt_view(head), opt_view(branch_content))
                == Ok::<Option<Seq<char>>, GitError>(None),
            Ok(MergeAction::FastForward(b)) => merge_spec(
                store@,
                opt_view(head),
                opt_view(branch_content),
            ) == Ok::<Option<Seq<char>>, GitError>(Some(b@)),
            Err(e) => merge_spec(store@, opt_view(head), opt_view(branch_content)) == Err::<
                Option<Seq<char>>,
                GitError,
            >(e),
        },
        r matches Ok(MergeAction::FastForward(b)) ==> head is Some && ancestor_spec(
            store@,
            head.unwrap()@,
            b@,
            store@.dom().len(),
        ) == Ok::<bool, GitError>(true),
{
    proof {
        lemma_merge_outcomes(store@, opt_view(head), opt_view(branch_content));
    }
    let h = match head {
        None => return Err(GitError::NothingToMerge),
        Some(h) => h,
    };
    let content = match branch_content {
        None => return Err(GitError::NoSuchBranch),
        Some(c) => c,
    };
    let b = trim_text(content.as_str());
    if h == b {
        return Ok(MergeAction::UpToDate);
    }
    match is_ancestor(store, h.as_str(), b.as_str()) {
        Err(e) => Err(e),
        Ok(true) => Ok(MergeAction::FastForward(b)),
        Ok(false) => Err(GitError::NonFastForward),
    }
}

} // verus!
