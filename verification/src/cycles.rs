//! When the walks over the store report `HistoryLoop`: only where the
//! store's objects refer to each other in a circle, which a store of
//! content-addressed objects never does.
use vstd::prelude::*;
use crate::history::{ancestor_spec, first_parent, history_spec, parents_spec};
use crate::objects::{dir_mode, EntryView, ObjectView};
use crate::restore::{index_entries, index_spec, restore_entries, restore_spec};
use crate::store::GitError;
use crate::text::path_join;

verus! {

/// `s` is a walk from commit to parent: each identifier names a stored
/// commit, and each next one is among the parents of the one before.
pub open spec fn parent_chain(db: Map<Seq<char>, ObjectView>, s: Seq<Seq<char>>) -> bool {
    &&& forall|i: int| 0 <= i < s.len() ==> db.contains_key(#[trigger] s[i]) && db[s[i]] is Commit
    &&& forall|i: int|
        0 <= i < s.len() - 1 ==> match db[#[trigger] s[i]] {
            ObjectView::Commit(c) => c.parents.contains(s[i + 1]),
            _ => false,
        }
}

/// Some stored commit is its own ancestor.
pub open spec fn commit_cycle(db: Map<Seq<char>, ObjectView>) -> bool {
    exists|s: Seq<Seq<char>>| #[trigger] parent_chain(db, s) && s.len() >= 2 && s[0] == s.last()
}

/// The link from a tree to the subdirectory entry `j` of its object.
pub open spec fn dir_link(es: Seq<EntryView>, j: int, h: Seq<char>) -> bool {
    0 <= j < es.len() && es[j].mode == dir_mode() && es[j].hash == h
}

/// `s` is a walk from tree to subdirectory: each identifier names a stored
/// tree, and each next one is named by a directory entry of the one
/// before.
pub open spec fn tree_chain(db: Map<Seq<char>, ObjectView>, s: Seq<Seq<char>>) -> bool {
    &&& forall|i: int| 0 <= i < s.len() ==> db.contains_key(#[trigger] s[i]) && db[s[i]] is Tree
    &&& forall|i: int|
        0 <= i < s.len() - 1 ==> match db[#[trigger] s[i]] {
            ObjectView::Tree(es) => exists|j: int| #[trigger] dir_link(es, j, s[i + 1]),
            _ => false,
        }
}

/// Some stored tree contains itself.
pub open spec fn tree_cycle(db: Map<Seq<char>, ObjectView>) -> bool {
    exists|s: Seq<Seq<char>>| #[trigger] tree_chain(db, s) && s.len() >= 2 && s[0] == s.last()
}

/// More entries than a finite set holds: two of them are equal.
proof fn lemma_repeat<A>(s: Seq<A>, dom: Set<A>) -> (r: (int, int))
    requires
        dom.finite(),
        forall|i: int| 0 <= i < s.len() ==> dom.contains(#[trigger] s[i]),
        s.len() > dom.len(),
    ensures
        0 <= r.0 < r.1 < s.len(),
        s[r.0] == s[r.1],
{
    if s.no_duplicates() {
        s.unique_seq_to_set();
        assert(s.to_set().subset_of(dom)) by {
            assert forall|x: A| s.to_set().contains(x) implies dom.contains(x) by {
                let i = choose|i: int| 0 <= i < s.len() && s[i] == x;
            }
        }
        vstd::set_lib::lemma_len_subset(s.to_set(), dom);
        assert(false);
        (0, 0)
    } else {
        let (i, j) = choose|i: int, j: int| 0 <= i < s.len() && 0 <= j < s.len() && i != j && s[i] == s[j];
        if i < j {
            (i, j)
        } else {
            (j, i)
        }
    }
}

pub(crate) proof fn lemma_ancestor_loop_chain(
    db: Map<Seq<char>, ObjectView>,
    a: Seq<char>,
    d: Seq<char>,
    fuel: nat,
) -> (s: Seq<Seq<char>>)
    requires
        ancestor_spec(db, a, d, fuel) == Err::<bool, GitError>(GitError::HistoryLoop),
    ensures
        parent_chain(db, s),
        s.len() == fuel + 1,
        s[0] == d,
    decreases fuel, 0int,
{
    match db[d] {
        ObjectView::Commit(c) => {
            if fuel == 0 {
                seq![d]
            } else {
                let t = lemma_parents_loop_chain(db, a, c.parents, 0, (fuel - 1) as nat);
                let s = seq![d] + t;
                assert forall|i: int| 0 <= i < s.len() implies db.contains_key(#[trigger] s[i])
                    && db[s[i]] is Commit by {
                    if i > 0 {
                        assert(s[i] == t[i - 1]);
                    }
                }
                assert forall|i: int| 0 <= i < s.len() - 1 implies match db[#[trigger] s[i]] {
                    ObjectView::Commit(c) => c.parents.contains(s[i + 1]),
                    _ => false,
                } by {
                    if i > 0 {
                        assert(s[i] == t[i - 1] && s[i + 1] == t[i]);
                    } else {
                        assert(s[1] == t[0]);
                    }
                }
                s
            }
        },
        _ => seq![d],
    }
}

proof fn lemma_parents_loop_chain(
    db: Map<Seq<char>, ObjectView>,
    a: Seq<char>,
    ps: Seq<Seq<char>>,
    i: int,
    fuel: nat,
) -> (s: Seq<Seq<char>>)
    requires
        parents_spec(db, a, ps, i, fuel) == Err::<bool, GitError>(GitError::HistoryLoop),
    ensures
        parent_chain(db, s),
        s.len() == fuel + 1,
        ps.contains(s[0]),
    decreases fuel, ps.len() - i,
{
    match ancestor_spec(db, a, ps[i], fuel) {
        Err(e) => {
            let s = lemma_ancestor_loop_chain(db, a, ps[i], fuel);
            assert(ps[i] == s[0]);
            s
        },
        Ok(true) => Seq::empty(),
        Ok(false) => lemma_parents_loop_chain(db, a, ps, i + 1, fuel),
    }
}

/// A walk that is longer than the store is large comes back to a commit
/// it passed.
pub(crate) proof fn lemma_parent_chain_cycle(db: Map<Seq<char>, ObjectView>, s: Seq<Seq<char>>)
    requires
        db.dom().finite(),
        parent_chain(db, s),
        s.len() > db.dom().len(),
    ensures
        commit_cycle(db),
{
    let (i, j) = lemma_repeat(s, db.dom());
    let t = s.subrange(i, j + 1);
    assert forall|k: int| 0 <= k < t.len() implies db.contains_key(#[trigger] t[k]) && db[t[k]] is Commit by {
        assert(t[k] == s[i + k]);
    }
    assert forall|k: int| 0 <= k < t.len() - 1 implies match db[#[trigger] t[k]] {
        ObjectView::Commit(c) => c.parents.contains(t[k + 1]),
        _ => false,
    } by {
        assert(t[k] == s[i + k] && t[k + 1] == s[i + k + 1]);
    }
    assert(parent_chain(db, t) && t.len() >= 2 && t[0] == t.last());
}

/// Law: ancestry reports `HistoryLoop` only for a store in which some
/// commit is its own ancestor.
pub proof fn lemma_ancestor_loop_is_a_cycle(db: Map<Seq<char>, ObjectView>, a: Seq<char>, d: Seq<char>)
    requires
        db.dom().finite(),
        ancestor_spec(db, a, d, db.dom().len()) == Err::<bool, GitError>(GitError::HistoryLoop),
    ensures
        commit_cycle(db),
{
    let s = lemma_ancestor_loop_chain(db, a, d, db.dom().len());
    lemma_parent_chain_cycle(db, s);
}

proof fn lemma_history_loop_chain(db: Map<Seq<char>, ObjectView>, cur: Option<Seq<char>>, fuel: nat) -> (s:
    Seq<Seq<char>>)
    requires
        history_spec(db, cur, fuel).1 == Some(GitError::HistoryLoop),
    ensures
        parent_chain(db, s),
        s.len() == fuel + 1,
        cur == Some(s[0]),
    decreases fuel,
{
    let h = cur.unwrap();
    match db[h] {
        ObjectView::Commit(c) => {
            if fuel == 0 {
                seq![h]
            } else {
                let t = lemma_history_loop_chain(db, first_parent(c), (fuel - 1) as nat);
                let s = seq![h] + t;
                assert(c.parents.contains(c.parents[0]));
                assert forall|i: int| 0 <= i < s.len() implies db.contains_key(#[trigger] s[i])
                    && db[s[i]] is Commit by {
                    if i > 0 {
                        assert(s[i] == t[i - 1]);
                    }
                }
                assert forall|i: int| 0 <= i < s.len() - 1 implies match db[#[trigger] s[i]] {
                    ObjectView::Commit(c) => c.parents.contains(s[i + 1]),
                    _ => false,
                } by {
                    if i > 0 {
                        assert(s[i] == t[i - 1] && s[i + 1] == t[i]);
                    } else {
                        assert(s[1] == t[0]);
                    }
                }
                s
            }
        },
        _ => seq![h],
    }
}

/// Law: `log` reports `HistoryLoop` only for a store in which some commit
/// is its own ancestor.
pub proof fn lemma_log_loop_is_a_cycle(db: Map<Seq<char>, ObjectView>, cur: Option<Seq<char>>)
    requires
        db.dom().finite(),
        history_spec(db, cur, db.dom().len()).1 == Some(GitError::HistoryLoop),
    ensures
        commit_cycle(db),
{
    let s = lemma_history_loop_chain(db, cur, db.dom().len());
    lemma_parent_chain_cycle(db, s);
}

proof fn lemma_chain_cons(db: Map<Seq<char>, ObjectView>, h: Seq<char>, es: Seq<EntryView>, j: int, t: Seq<Seq<char>>) -> (s: Seq<Seq<char>>)
    requires
        db.contains_key(h),
        db[h] == ObjectView::Tree(es),
        tree_chain(db, t),
        t.len() > 0,
        dir_link(es, j, t[0]),
    ensures
        tree_chain(db, s),
        s.len() == t.len() + 1,
        s[0] == h,
{
    let s = seq![h] + t;
    assert forall|i: int| 0 <= i < s.len() implies db.contains_key(#[trigger] s[i]) && db[s[i]] is Tree by {
        if i > 0 {
            assert(s[i] == t[i - 1]);
        }
    }
    assert(s[0] == h && s[1] == t[0]);
    assert(dir_link(es, j, s[1]));
    assert(db[s[0]] == ObjectView::Tree(es));
    assert(db[s[0]]->Tree_0 == es);
    assert(dir_link(db[s[0]]->Tree_0, j, s[1]));
    assert(match db[s[0]] {
        ObjectView::Tree(es2) => exists|x: int| #[trigger] dir_link(es2, x, s[1]),
        _ => false,
    });
    assert forall|i: int| 0 <= i < s.len() - 1 implies match db[#[trigger] s[i]] {
        ObjectView::Tree(es) => exists|j: int| #[trigger] dir_link(es, j, s[i + 1]),
        _ => false,
    } by {
        if i > 0 {
            assert(s[i] == t[i - 1] && s[i + 1] == t[i]);
        }
    }
    s
}

proof fn lemma_index_loop_chain(
    db: Map<Seq<char>, ObjectView>,
    h: Seq<char>,
    base: Seq<char>,
    fuel: nat,
    m: Map<Seq<char>, Seq<char>>,
) -> (s: Seq<Seq<char>>)
    requires
        index_spec(db, h, base, fuel, m).1 == Some(GitError::HistoryLoop),
    ensures
        tree_chain(db, s),
        s.len() == fuel + 1,
        s[0] == h,
    decreases fuel, 0int,
{
    match db[h] {
        ObjectView::Tree(es) => {
            if fuel == 0 {
                seq![h]
            } else {
                let (t, j) = lemma_index_entries_loop_chain(db, es, 0, base, (fuel - 1) as nat, m);
                lemma_chain_cons(db, h, es, j, t)
            }
        },
        _ => seq![h],
    }
}

proof fn lemma_index_entries_loop_chain(
    db: Map<Seq<char>, ObjectView>,
    es: Seq<EntryView>,
    i: int,
    base: Seq<char>,
    fuel: nat,
    m: Map<Seq<char>, Seq<char>>,
) -> (r: (Seq<Seq<char>>, int))
    requires
        index_entries(db, es, i, base, fuel, m).1 == Some(GitError::HistoryLoop),
    ensures
        tree_chain(db, r.0),
        r.0.len() == fuel + 1,
        dir_link(es, r.1, r.0[0]),
    decreases fuel, es.len() - i,
{
    let e = es[i];
    let p = path_join(base, e.name);
    if e.mode == dir_mode() {
        let (m1, err1) = index_spec(db, e.hash, p, fuel, m);
        if err1 is Some {
            (lemma_index_loop_chain(db, e.hash, p, fuel, m), i)
        } else {
            lemma_index_entries_loop_chain(db, es, i + 1, base, fuel, m1)
        }
    } else {
        lemma_index_entries_loop_chain(db, es, i + 1, base, fuel, m.insert(p, e.hash))
    }
}

proof fn lemma_restore_loop_chain(db: Map<Seq<char>, ObjectView>, h: Seq<char>, base: Seq<char>, fuel: nat) -> (s:
    Seq<Seq<char>>)
    requires
        restore_spec(db, h, base, fuel).1 == Some(GitError::HistoryLoop),
    ensures
        tree_chain(db, s),
        s.len() == fuel + 1,
        s[0] == h,
    decreases fuel, 0int,
{
    match db[h] {
        ObjectView::Tree(es) => {
            if fuel == 0 {
                seq![h]
            } else {
                let (t, j) = lemma_restore_entries_loop_chain(db, es, 0, base, (fuel - 1) as nat);
                lemma_chain_cons(db, h, es, j, t)
            }
        },
        _ => seq![h],
    }
}

proof fn lemma_restore_entries_loop_chain(
    db: Map<Seq<char>, ObjectView>,
    es: Seq<EntryView>,
    i: int,
    base: Seq<char>,
    fuel: nat,
) -> (r: (Seq<Seq<char>>, int))
    requires
        restore_entries(db, es, i, base, fuel).1 == Some(GitError::HistoryLoop),
    ensures
        tree_chain(db, r.0),
        r.0.len() == fuel + 1,
        dir_link(es, r.1, r.0[0]),
    decreases fuel, es.len() - i,
{
    let e = es[i];
    let p = path_join(base, e.name);
    if e.mode == dir_mode() {
        let (a1, err1) = restore_spec(db, e.hash, p, fuel);
        if err1 is Some {
            (lemma_restore_loop_chain(db, e.hash, p, fuel), i)
        } else {
            lemma_restore_entries_loop_chain(db, es, i + 1, base, fuel)
        }
    } else {
        lemma_restore_entries_loop_chain(db, es, i + 1, base, fuel)
    }
}

/// A walk through trees that is longer than the store is large comes back
/// to a tree it passed.
proof fn lemma_tree_chain_cycle(db: Map<Seq<char>, ObjectView>, s: Seq<Seq<char>>)
    requires
        db.dom().finite(),
        tree_chain(db, s),
        s.len() > db.dom().len(),
    ensures
        tree_cycle(db),
{
    let (i, j) = lemma_repeat(s, db.dom());
    let t = s.subrange(i, j + 1);
    assert forall|k: int| 0 <= k < t.len() implies db.contains_key(#[trigger] t[k]) && db[t[k]] is Tree by {
        assert(t[k] == s[i + k]);
    }
    assert forall|k: int| 0 <= k < t.len() - 1 implies match db[#[trigger] t[k]] {
        ObjectView::Tree(es) => exists|x: int| #[trigger] dir_link(es, x, t[k + 1]),
        _ => false,
    } by {
        assert(t[k] == s[i + k] && t[k + 1] == s[i + k + 1]);
    }
    assert(tree_chain(db, t) && t.len() >= 2 && t[0] == t.last());
}

/// Law: checking out reports `HistoryLoop` only for a store in which some
/// tree contains itself, both when writing files and when staging them.
pub proof fn lemma_checkout_loop_is_a_cycle(
    db: Map<Seq<char>, ObjectView>,
    h: Seq<char>,
    base: Seq<char>,
    m: Map<Seq<char>, Seq<char>>,
)
    requires
        db.dom().finite(),
        restore_spec(db, h, base, db.dom().len()).1 == Some(GitError::HistoryLoop) || index_spec(
            db,
            h,
            base,
            db.dom().len(),
            m,
        ).1 == Some(GitError::HistoryLoop),
    ensures
        tree_cycle(db),
{
    if restore_spec(db, h, base, db.dom().len()).1 == Some(GitError::HistoryLoop) {
        let s = lemma_restore_loop_chain(db, h, base, db.dom().len());
        lemma_tree_chain_cycle(db, s);
    } else {
        let s = lemma_index_loop_chain(db, h, base, db.dom().len(), m);
        lemma_tree_chain_cycle(db, s);
    }
}

proof fn lemma_index_fuel(
    db: Map<Seq<char>, ObjectView>,
    h: Seq<char>,
    base: Seq<char>,
    f1: nat,
    f2: nat,
    m: Map<Seq<char>, Seq<char>>,
)
    requires
        f1 <= f2,
        index_spec(db, h, base, f1, m).1 != Some(GitError::HistoryLoop),
    ensures
        index_spec(db, h, base, f2, m) == index_spec(db, h, base, f1, m),
    decreases f1, 0int,
{
    if db.contains_key(h) {
        match db[h] {
            ObjectView::Tree(es) => {
                if f1 > 0 {
                    lemma_index_entries_fuel(db, es, 0, base, (f1 - 1) as nat, (f2 - 1) as nat, m);
                }
            },
            _ => {},
        }
    }
}

proof fn lemma_index_entries_fuel(
    db: Map<Seq<char>, ObjectView>,
    es: Seq<EntryView>,
    i: int,
    base: Seq<char>,
    f1: nat,
    f2: nat,
    m: Map<Seq<char>, Seq<char>>,
)
    requires
        f1 <= f2,
        index_entries(db, es, i, base, f1, m).1 != Some(GitError::HistoryLoop),
    ensures
        index_entries(db, es, i, base, f2, m) == index_entries(db, es, i, base, f1, m),
    decreases f1, es.len() - i,
{
    if 0 <= i < es.len() {
        let e = es[i];
        let p = path_join(base, e.name);
        if e.mode == dir_mode() {
            let (m1, err1) = index_spec(db, e.hash, p, f1, m);
            lemma_index_fuel(db, e.hash, p, f1, f2, m);
            if err1 is None {
                lemma_index_entries_fuel(db, es, i + 1, base, f1, f2, m1);
            }
        } else {
            lemma_index_entries_fuel(db, es, i + 1, base, f1, f2, m.insert(p, e.hash));
        }
    }
}

proof fn lemma_restore_fuel(db: Map<Seq<char>, ObjectView>, h: Seq<char>, base: Seq<char>, f1: nat, f2: nat)
    requires
        f1 <= f2,
        restore_spec(db, h, base, f1).1 != Some(GitError::HistoryLoop),
    ensures
        restore_spec(db, h, base, f2) == restore_spec(db, h, base, f1),
    decreases f1, 0int,
{
    if db.contains_key(h) {
        match db[h] {
            ObjectView::Tree(es) => {
                if f1 > 0 {
                    lemma_restore_entries_fuel(db, es, 0, base, (f1 - 1) as nat, (f2 - 1) as nat);
                }
            },
            _ => {},
        }
    }
}

proof fn lemma_restore_entries_fuel(
    db: Map<Seq<char>, ObjectView>,
    es: Seq<EntryView>,
    i: int,
    base: Seq<char>,
    f1: nat,
    f2: nat,
)
    requires
        f1 <= f2,
        restore_entries(db, es, i, base, f1).1 != Some(GitError::HistoryLoop),
    ensures
        restore_entries(db, es, i, base, f2) == restore_entries(db, es, i, base, f1),
    decreases f1, es.len() - i,
{
    if 0 <= i < es.len() {
        let e = es[i];
        let p = path_join(base, e.name);
        if e.mode == dir_mode() {
            let (a1, err1) = restore_spec(db, e.hash, p, f1);
            lemma_restore_fuel(db, e.hash, p, f1, f2);
            if err1 is None {
                lemma_restore_entries_fuel(db, es, i + 1, base, f1, f2);
            }
        } else if db.contains_key(e.hash) {
            match db[e.hash] {
                ObjectView::Blob(c) => lemma_restore_entries_fuel(db, es, i + 1, base, f1, f2),
                _ => {},
            }
        }
    }
}

/// Law: in a store where no tree contains itself, the walks of a checkout
/// never run out of depth: bounded by the number of objects in the store,
/// they give what they give under any larger bound.
pub proof fn lemma_tree_walks_bound_suffices(
    db: Map<Seq<char>, ObjectView>,
    h: Seq<char>,
    base: Seq<char>,
    m: Map<Seq<char>, Seq<char>>,
    fuel: nat,
)
    requires
        db.dom().finite(),
        !tree_cycle(db),
        fuel >= db.dom().len(),
    ensures
        restore_spec(db, h, base, fuel) == restore_spec(db, h, base, db.dom().len()),
        index_spec(db, h, base, fuel, m) == index_spec(db, h, base, db.dom().len(), m),
{
    let n = db.dom().len();
    if restore_spec(db, h, base, n).1 == Some(GitError::HistoryLoop) {
        lemma_checkout_loop_is_a_cycle(db, h, base, m);
    }
    lemma_restore_fuel(db, h, base, n, fuel);
    if index_spec(db, h, base, n, m).1 == Some(GitError::HistoryLoop) {
        lemma_checkout_loop_is_a_cycle(db, h, base, m);
    }
    lemma_index_fuel(db, h, base, n, fuel, m);
}

} // verus!
