//! What checking out a commit gives back of the staging area it was made
//! from.
use vstd::prelude::*;
use crate::assoc::{has_key, key_pos, lemma_key_pos};
use crate::objects::{dir_mode, file_mode, EntryView, ObjectView};
use crate::restore::{checkout_spec, index_entries, index_spec, restore_entries, restore_spec, ActionView};
use crate::cycles::{lemma_tree_walks_bound_suffices, tree_cycle};
use crate::store::GitError;
use crate::text::{contains_seq, first_pos, lemma_first_pos_range, occurs_at, path_join};
use crate::tree::{
    blob_entries, lemma_get_file, lemma_get_through, lemma_not_bare_has_file, no_slash, subtrees_summary, tree_get, tree_summary, InMemoryTree,
};

verus! {

/// The entries of the tree object that writing `t` stores.
pub open spec fn tree_entries(t: InMemoryTree) -> Seq<EntryView> {
    blob_entries(t.blobs@) + subtrees_summary(t.trees@).0
}

/// The store holds, under its identifier, the tree object of `t` and of
/// each of its subdirectories.
pub open spec fn stores_tree(db: Map<Seq<char>, ObjectView>, t: InMemoryTree) -> bool
    decreases t,
{
    &&& db.contains_key(tree_summary(t).0)
    &&& db[tree_summary(t).0] == ObjectView::Tree(tree_entries(t))
    &&& forall|i: int| 0 <= i < t.trees@.len() ==> stores_tree(db, #[trigger] t.trees@[i].1)
}

/// The number of directory levels of `t`, itself included.
pub open spec fn height(t: InMemoryTree) -> nat
    decreases t,
{
    1 + heights(t.trees@)
}

/// The greatest height among the subdirectories `ts`.
pub open spec fn heights(ts: Seq<(String, InMemoryTree)>) -> nat
    decreases ts,
{
    if ts.len() == 0 {
        0
    } else {
        let a = heights(ts.drop_last());
        let b = height(ts.last().1);
        if a < b {
            b
        } else {
            a
        }
    }
}

/// Every directory of `t`, at any depth, has a non-empty name.
pub open spec fn named_dirs(t: InMemoryTree) -> bool
    decreases t,
{
    forall|i: int|
        0 <= i < t.trees@.len() ==> (#[trigger] t.trees@[i]).0@.len() > 0 && named_dirs(t.trees@[i].1)
}

/// The files of the entries `bs` placed under `base`, in order.
pub open spec fn blob_files(bs: Seq<(String, String)>, base: Seq<char>) -> Map<Seq<char>, Seq<char>>
    decreases bs.len(),
{
    if bs.len() == 0 {
        Map::empty()
    } else {
        blob_files(bs.drop_last(), base).insert(path_join(base, bs.last().0@), bs.last().1@)
    }
}

/// The files of the tree `t` placed under `base`, as a walk of its
/// entries in order records them.
pub open spec fn tree_files(t: InMemoryTree, base: Seq<char>) -> Map<Seq<char>, Seq<char>>
    decreases t,
{
    blob_files(t.blobs@, base).union_prefer_right(sub_files(t.trees@, base))
}

/// The files of the subdirectories `ts` placed under `base`, in order.
pub open spec fn sub_files(ts: Seq<(String, InMemoryTree)>, base: Seq<char>) -> Map<
    Seq<char>,
    Seq<char>,
>
    decreases ts,
{
    if ts.len() == 0 {
        Map::empty()
    } else {
        sub_files(ts.drop_last(), base).union_prefer_right(
            tree_files(ts.last().1, path_join(base, ts.last().0@)),
        )
    }
}

/// The files of the first `i` entries of `t`'s tree object, under `base`.
pub open spec fn prefix_files(t: InMemoryTree, base: Seq<char>, i: int) -> Map<Seq<char>, Seq<char>> {
    let nb = t.blobs@.len() as int;
    if i <= nb {
        blob_files(t.blobs@.take(i), base)
    } else {
        blob_files(t.blobs@, base).union_prefer_right(sub_files(t.trees@.take(i - nb), base))
    }
}

proof fn lemma_heights(ts: Seq<(String, InMemoryTree)>)
    ensures
        forall|i: int| 0 <= i < ts.len() ==> height(#[trigger] ts[i].1) <= heights(ts),
    decreases ts.len(),
{
    if ts.len() > 0 {
        lemma_heights(ts.drop_last());
        assert forall|i: int| 0 <= i < ts.len() implies height(#[trigger] ts[i].1) <= heights(ts) by {
            if i < ts.len() - 1 {
                assert(ts.drop_last()[i] == ts[i]);
            }
        }
    }
}

proof fn lemma_subtree_entries(ts: Seq<(String, InMemoryTree)>)
    ensures
        subtrees_summary(ts).0.len() == ts.len(),
        forall|j: int|
            0 <= j < ts.len() ==> #[trigger] subtrees_summary(ts).0[j] == (EntryView {
                mode: dir_mode(),
                name: ts[j].0@,
                hash: tree_summary(ts[j].1).0,
            }),
    decreases ts.len(),
{
    if ts.len() > 0 {
        lemma_subtree_entries(ts.drop_last());
        assert forall|j: int| 0 <= j < ts.len() implies #[trigger] subtrees_summary(ts).0[j] == (
        EntryView { mode: dir_mode(), name: ts[j].0@, hash: tree_summary(ts[j].1).0 }) by {
            if j < ts.len() - 1 {
                assert(ts.drop_last()[j] == ts[j]);
            }
        }
    }
}

/// Walking the tree object of a stored tree adds its files, placed under
/// `base`, to the staged map, without error, given enough depth.
pub proof fn lemma_index_of_stored_tree(
    db: Map<Seq<char>, ObjectView>,
    t: InMemoryTree,
    base: Seq<char>,
    fuel: nat,
    m: Map<Seq<char>, Seq<char>>,
)
    requires
        stores_tree(db, t),
        fuel >= height(t),
    ensures
        index_spec(db, tree_summary(t).0, base, fuel, m) == (
            m.union_prefer_right(tree_files(t, base)),
            None::<GitError>,
        ),
    decreases t, tree_entries(t).len() + 1,
{
    assert(m.union_prefer_right(prefix_files(t, base, 0)) =~= m) by {
        assert(t.blobs@.take(0) =~= Seq::<(String, String)>::empty());
    }
    lemma_entries_walk(db, t, base, (fuel - 1) as nat, 0, m);
}

proof fn lemma_entries_walk(
    db: Map<Seq<char>, ObjectView>,
    t: InMemoryTree,
    base: Seq<char>,
    fuel: nat,
    i: int,
    m: Map<Seq<char>, Seq<char>>,
)
    requires
        stores_tree(db, t),
        fuel >= heights(t.trees@),
        0 <= i <= tree_entries(t).len(),
    ensures
        index_entries(
            db,
            tree_entries(t),
            i,
            base,
            fuel,
            m.union_prefer_right(prefix_files(t, base, i)),
        ) == (m.union_prefer_right(tree_files(t, base)), None::<GitError>),
    decreases t, tree_entries(t).len() - i,
{
    let es = tree_entries(t);
    let bs = t.blobs@;
    let ts = t.trees@;
    let nb = bs.len() as int;
    lemma_subtree_entries(ts);
    let cur = m.union_prefer_right(prefix_files(t, base, i));
    if i == es.len() {
        assert(prefix_files(t, base, i) =~= tree_files(t, base)) by {
            if ts.len() == 0 {
                assert(bs.take(nb) =~= bs);
                assert(sub_files(ts, base) =~= Map::<Seq<char>, Seq<char>>::empty());
                assert(blob_files(bs, base).union_prefer_right(sub_files(ts, base)) =~= blob_files(
                    bs,
                    base,
                ));
            } else {
                assert(ts.take(i - nb) =~= ts);
            }
        }
    } else if i < nb {
        let e = es[i];
        assert(e == EntryView { mode: file_mode(), name: bs[i].0@, hash: bs[i].1@ });
        assert(file_mode() != dir_mode()) by {
            reveal_strlit("100644");
            reveal_strlit("040000");
            assert(file_mode()[0] != dir_mode()[0]);
        }
        let k = path_join(base, bs[i].0@);
        assert(bs.take(i + 1).drop_last() =~= bs.take(i));
        assert(prefix_files(t, base, i + 1) == prefix_files(t, base, i).insert(k, bs[i].1@));
        assert(cur.insert(k, bs[i].1@) =~= m.union_prefer_right(prefix_files(t, base, i + 1)));
        lemma_entries_walk(db, t, base, fuel, i + 1, m);
    } else {
        let j = i - nb;
        let e = es[i];
        let sub = ts[j].1;
        let sub_base = path_join(base, ts[j].0@);
        assert(e == EntryView { mode: dir_mode(), name: ts[j].0@, hash: tree_summary(sub).0 });
        assert(stores_tree(db, sub));
        lemma_heights(ts);
        lemma_index_of_stored_tree(db, sub, sub_base, fuel, cur);
        let next = cur.union_prefer_right(tree_files(sub, sub_base));
        assert(ts.take(j + 1).drop_last() =~= ts.take(j));
        assert(ts.take(j + 1).last() == ts[j]);
        if j == 0 {
            assert(bs.take(nb) =~= bs);
            assert(ts.take(0) =~= Seq::<(String, InMemoryTree)>::empty());
            assert(prefix_files(t, base, i) =~= blob_files(bs, base).union_prefer_right(
                sub_files(ts.take(0), base),
            ));
        }
        assert(next =~= m.union_prefer_right(prefix_files(t, base, i + 1)));
        lemma_entries_walk(db, t, base, fuel, i + 1, m);
    }
}

/// `p` begins with `/`.
pub open spec fn lead_slash(p: Seq<char>) -> bool {
    p.len() > 0 && p[0] == '/'
}

/// A base directory to place paths under: the top (empty) or a path that
/// does not end with `/`.
pub open spec fn good_base(base: Seq<char>) -> bool {
    base.len() == 0 || base.last() != '/'
}

/// The path under `base` that `k` names, where `k` was placed under `base`.
pub open spec fn unjoin(base: Seq<char>, k: Seq<char>) -> Seq<char> {
    if base.len() == 0 {
        k
    } else {
        k.skip(base.len() as int + 1)
    }
}

proof fn lemma_unjoin(base: Seq<char>, p: Seq<char>)
    requires
        good_base(base),
        !lead_slash(p),
    ensures
        unjoin(base, path_join(base, p)) == p,
        base.len() > 0 ==> path_join(base, p) == base + seq!['/'] + p,
{
    if base.len() > 0 {
        assert((base + seq!['/'] + p).skip(base.len() as int + 1) =~= p);
    }
}

/// Placing `d/r` under `base` is placing `r` under `base/d`.
proof fn lemma_join_through(base: Seq<char>, d: Seq<char>, r: Seq<char>)
    requires
        good_base(base),
        d.len() > 0,
        no_slash(d),
        !lead_slash(r),
    ensures
        path_join(base, d + seq!['/'] + r) == path_join(path_join(base, d), r),
        good_base(path_join(base, d)),
        !lead_slash(d + seq!['/'] + r),
{
    let p = d + seq!['/'] + r;
    assert(p[0] == d[0]);
    if base.len() == 0 {
        assert(path_join(d, r) =~= d + seq!['/'] + r);
    } else {
        assert(path_join(base, d) =~= base + seq!['/'] + d);
        assert((base + seq!['/'] + d).last() == d.last());
        assert(path_join(base, p) =~= base + seq!['/'] + d + seq!['/'] + r);
        assert(path_join(path_join(base, d), r) =~= base + seq!['/'] + d + seq!['/'] + r);
    }
    assert(path_join(base, d).last() == d.last());
}

proof fn lemma_blob_files(bs: Seq<(String, String)>, base: Seq<char>)
    ensures
        forall|k: Seq<char>|
            #[trigger] blob_files(bs, base).contains_key(k) ==> exists|j: int|
                0 <= j < bs.len() && k == path_join(base, bs[j].0@) && blob_files(bs, base)[k]
                    == bs[j].1@,
        forall|j: int|
            0 <= j < bs.len() ==> #[trigger] blob_files(bs, base).contains_key(
                path_join(base, bs[j].0@),
            ),
    decreases bs.len(),
{
    if bs.len() > 0 {
        let t = bs.drop_last();
        lemma_blob_files(t, base);
        assert forall|k: Seq<char>| #[trigger] blob_files(bs, base).contains_key(k) implies exists|j: int|
            0 <= j < bs.len() && k == path_join(base, bs[j].0@) && blob_files(bs, base)[k]
                == bs[j].1@ by {
            if k == path_join(base, bs.last().0@) {
                assert(k == path_join(base, bs[bs.len() - 1].0@));
            } else {
                assert(blob_files(t, base).contains_key(k));
                let j = choose|j: int|
                    0 <= j < t.len() && k == path_join(base, t[j].0@) && blob_files(t, base)[k]
                        == t[j].1@;
                assert(bs[j] == t[j]);
            }
        }
        assert forall|j: int| 0 <= j < bs.len() implies #[trigger] blob_files(bs, base).contains_key(
            path_join(base, bs[j].0@),
        ) by {
            if j < bs.len() - 1 {
                assert(bs[j] == t[j]);
                assert(blob_files(t, base).contains_key(path_join(base, t[j].0@)));
            }
        }
    }
}

proof fn lemma_sub_files(ts: Seq<(String, InMemoryTree)>, base: Seq<char>)
    ensures
        forall|k: Seq<char>|
            #[trigger] sub_files(ts, base).contains_key(k) ==> exists|j: int|
                0 <= j < ts.len() && tree_files(ts[j].1, path_join(base, ts[j].0@)).contains_key(k)
                    && sub_files(ts, base)[k] == tree_files(ts[j].1, path_join(base, ts[j].0@))[k],
        forall|j: int, k: Seq<char>|
            0 <= j < ts.len() && #[trigger] tree_files(ts[j].1, path_join(base, ts[j].0@)).contains_key(
                k,
            ) ==> sub_files(ts, base).contains_key(k),
    decreases ts.len(),
{
    if ts.len() > 0 {
        let t = ts.drop_last();
        lemma_sub_files(t, base);
        let last = tree_files(ts.last().1, path_join(base, ts.last().0@));
        assert forall|k: Seq<char>| #[trigger] sub_files(ts, base).contains_key(k) implies exists|j: int|
            0 <= j < ts.len() && tree_files(ts[j].1, path_join(base, ts[j].0@)).contains_key(k)
                && sub_files(ts, base)[k] == tree_files(ts[j].1, path_join(base, ts[j].0@))[k] by {
            if last.contains_key(k) {
                assert(ts[ts.len() - 1] == ts.last());
            } else {
                assert(sub_files(t, base).contains_key(k));
                let j = choose|j: int|
                    0 <= j < t.len() && tree_files(t[j].1, path_join(base, t[j].0@)).contains_key(k)
                        && sub_files(t, base)[k] == tree_files(t[j].1, path_join(base, t[j].0@))[k];
                assert(ts[j] == t[j]);
            }
        }
        assert forall|j: int, k: Seq<char>|
            0 <= j < ts.len() && #[trigger] tree_files(ts[j].1, path_join(base, ts[j].0@)).contains_key(
                k,
            ) implies sub_files(ts, base).contains_key(k) by {
            if j < ts.len() - 1 {
                assert(ts[j] == t[j]);
                assert(tree_files(t[j].1, path_join(base, t[j].0@)).contains_key(k));
            }
        }
    }
}

/// Placed under a good base, the files of a well-formed tree whose
/// directories all have names are its own files: each at its path joined
/// to the base, none with a leading `/`.
pub proof fn lemma_tree_files(t: InMemoryTree, base: Seq<char>)
    requires
        t.wf(),
        named_dirs(t),
        good_base(base),
    ensures
        forall|p: Seq<char>| #[trigger] tree_get(t, p) is Some ==> !lead_slash(p),
        forall|k: Seq<char>|
            #[trigger] tree_files(t, base).contains_key(k) <==> exists|p: Seq<char>|
                tree_get(t, p) is Some && k == path_join(base, p),
        forall|k: Seq<char>|
            #[trigger] tree_files(t, base).contains_key(k) ==> tree_files(t, base)[k] == tree_get(
                t,
                unjoin(base, k),
            ).unwrap(),
    decreases t,
{
    let bs = t.blobs@;
    let ts = t.trees@;
    lemma_blob_files(bs, base);
    lemma_sub_files(ts, base);
    assert forall|j: int| 0 <= j < ts.len() implies #[trigger] good_base(path_join(base, ts[j].0@))
        && ts[j].1.wf() && named_dirs(ts[j].1) by {
        assert(ts[j].0@.len() > 0);
        assert(no_slash(ts[j].0@));
        lemma_join_through(base, ts[j].0@, Seq::empty());
    }
    assert forall|j: int| 0 <= j < ts.len() implies #[trigger] files_placed(
        ts[j].1,
        path_join(base, ts[j].0@),
    ) by {
        lemma_tree_files(ts[j].1, path_join(base, ts[j].0@));
    }
    // no leading slash
    assert forall|p: Seq<char>| #[trigger] tree_get(t, p) is Some implies !lead_slash(p) by {
        let kq = first_pos(p, '/');
        lemma_first_pos_range(p, '/');
        if kq >= 0 {
            let d = p.take(kq);
            assert(has_key(ts, d));
            let j = key_pos(ts, d);
            assert(ts[j].0@.len() > 0);
            assert(kq > 0);
        }
    }
    // membership, one way
    assert forall|k: Seq<char>| #[trigger] tree_files(t, base).contains_key(k) implies (exists|p: Seq<char>|
        tree_get(t, p) is Some && k == path_join(base, p)) && tree_files(t, base)[k] == tree_get(
        t,
        unjoin(base, k),
    ).unwrap() by {
        if sub_files(ts, base).contains_key(k) {
            let j = choose|j: int|
                0 <= j < ts.len() && tree_files(ts[j].1, path_join(base, ts[j].0@)).contains_key(k)
                    && sub_files(ts, base)[k] == tree_files(ts[j].1, path_join(base, ts[j].0@))[k];
            let d = ts[j].0@;
            let sub = ts[j].1;
            let sb = path_join(base, d);
            assert(files_placed(sub, sb));
            let r = choose|r: Seq<char>| tree_get(sub, r) is Some && k == path_join(sb, r);
            assert(!lead_slash(r));
            lemma_unjoin(sb, r);
            lemma_join_through(base, d, r);
            lemma_get_through(t, j, r);
            let p = d + seq!['/'] + r;
            assert(tree_get(t, p) is Some && k == path_join(base, p));
            lemma_unjoin(base, p);
        } else {
            let j = choose|j: int|
                0 <= j < bs.len() && k == path_join(base, bs[j].0@) && blob_files(bs, base)[k]
                    == bs[j].1@;
            let name = bs[j].0@;
            assert(no_slash(name));
            lemma_get_file(t, name);
            lemma_key_pos(bs, j);
            assert(!lead_slash(name));
            lemma_unjoin(base, name);
        }
    }
    // membership, the other way
    assert forall|k: Seq<char>| (exists|p: Seq<char>| tree_get(t, p) is Some && k == path_join(base, p))
        implies #[trigger] tree_files(t, base).contains_key(k) by {
        let p = choose|p: Seq<char>| tree_get(t, p) is Some && k == path_join(base, p);
        let kq = first_pos(p, '/');
        lemma_first_pos_range(p, '/');
        if kq < 0 {
            crate::text::lemma_first_pos_absent(p, '/');
            assert(no_slash(p)) by {
                if !no_slash(p) {
                    let x = choose|x: int| 0 <= x < p.len() && p[x] == '/';
                    let f = crate::tree::first_index(p, x);
                    assert(exists|y: int| crate::text::is_first_pos(p, '/', y));
                }
            }
            lemma_get_file(t, p);
            let j = key_pos(bs, p);
            assert(blob_files(bs, base).contains_key(path_join(base, bs[j].0@)));
        } else {
            let d = p.take(kq);
            let r = p.skip(kq + 1);
            assert(p =~= d + seq!['/'] + r);
            let j = key_pos(ts, d);
            assert(has_key(ts, d));
            assert(ts[j].0@ == d);
            assert(no_slash(d) && d.len() > 0);
            lemma_get_through(t, j, r);
            let sub = ts[j].1;
            let sb = path_join(base, d);
            assert(files_placed(sub, sb));
            assert(tree_get(sub, r) is Some);
            assert(!lead_slash(r));
            lemma_join_through(base, d, r);
            assert(tree_files(sub, sb).contains_key(path_join(sb, r)));
        }
    }
}

/// The files of `t` placed under `base` are its own files, each at its path
/// joined to the base, none with a leading `/`.
pub open spec fn files_placed(t: InMemoryTree, base: Seq<char>) -> bool {
    &&& forall|p: Seq<char>| #[trigger] tree_get(t, p) is Some ==> !lead_slash(p)
    &&& forall|k: Seq<char>|
        #[trigger] tree_files(t, base).contains_key(k) <==> exists|p: Seq<char>|
            tree_get(t, p) is Some && k == path_join(base, p)
    &&& forall|k: Seq<char>|
        #[trigger] tree_files(t, base).contains_key(k) ==> tree_files(t, base)[k] == tree_get(
            t,
            unjoin(base, k),
        ).unwrap()
}

/// A well-formed tree none of whose paths begins with `/` or holds `//` has
/// a name for every directory.
pub proof fn lemma_named_dirs(t: InMemoryTree)
    requires
        t.wf(),
        forall|p: Seq<char>|
            #[trigger] tree_get(t, p) is Some ==> !lead_slash(p) && !contains_seq(p, "//"@),
    ensures
        named_dirs(t),
    decreases t,
{
    reveal_strlit("//");
    let ts = t.trees@;
    assert forall|i: int| 0 <= i < ts.len() implies (#[trigger] ts[i]).0@.len() > 0 && named_dirs(
        ts[i].1,
    ) by {
        let d = ts[i].0@;
        let sub = ts[i].1;
        assert(sub.wf() && !sub.is_bare());
        assert(no_slash(d));
        if d.len() == 0 {
            lemma_not_bare_has_file(sub);
            let r = choose|r: Seq<char>| #[trigger] tree_get(sub, r) is Some;
            lemma_get_through(t, i, r);
            assert((d + seq!['/'] + r)[0] == '/');
        }
        assert forall|r: Seq<char>| #[trigger] tree_get(sub, r) is Some implies !lead_slash(r)
            && !contains_seq(r, "//"@) by {
            lemma_get_through(t, i, r);
            let p = d + seq!['/'] + r;
            assert(tree_get(t, p) is Some);
            if lead_slash(r) {
                assert(p.subrange(d.len() as int, d.len() as int + 2) =~= "//"@);
                assert(occurs_at(p, "//"@, d.len() as int));
            }
            if contains_seq(r, "//"@) {
                let x = choose|x: int| occurs_at(r, "//"@, x);
                assert(p.subrange(d.len() + 1 + x, d.len() + 1 + x + 2) =~= r.subrange(x, x + 2));
                assert(occurs_at(p, "//"@, d.len() + 1 + x));
            }
        }
        lemma_named_dirs(sub);
    }
}

/// Law: checking out what was committed gives the staging area back. For
/// a well-formed tree (such as the one `build_root_tree` writes from a
/// staging area) whose paths neither begin with `/` nor hold `//`, once the
/// store holds its tree objects, rebuilding the staging area from its
/// identifier, with the walk bounded by the number of objects in the store
/// (as `build_index_from_tree` does), yields exactly its files, without
/// error, as long as no tree of the store contains itself.
pub proof fn lemma_checkout_round_trip(db: Map<Seq<char>, ObjectView>, t: InMemoryTree)
    requires
        t.wf(),
        forall|p: Seq<char>| #[trigger] t@.contains_key(p) ==> !lead_slash(p) && !contains_seq(p, "//"@),
        stores_tree(db, t),
        db.dom().finite(),
        !tree_cycle(db),
    ensures
        index_spec(db, tree_summary(t).0, Seq::empty(), db.dom().len(), Map::empty()) == (t@, None::<GitError>),
{
    let n = db.dom().len();
    let fuel: nat = if n >= height(t) { n } else { height(t) };
    lemma_tree_walks_bound_suffices(db, tree_summary(t).0, Seq::empty(), Map::empty(), fuel);
    assert forall|p: Seq<char>| #[trigger] tree_get(t, p) is Some implies !lead_slash(p) && !contains_seq(
        p,
        "//"@,
    ) by {
        assert(t@.contains_key(p));
    }
    lemma_named_dirs(t);
    lemma_tree_files(t, Seq::empty());
    lemma_index_of_stored_tree(db, t, Seq::empty(), fuel, Map::empty());
    let f = tree_files(t, Seq::empty());
    assert forall|k: Seq<char>| #[trigger] f.contains_key(k) == t@.contains_key(k) by {
        if t@.contains_key(k) {
            assert(tree_get(t, k) is Some && k == path_join(Seq::empty(), k));
        }
    }
    assert(Map::<Seq<char>, Seq<char>>::empty().union_prefer_right(f) =~= t@);
}

/// The text of the blob stored under `h`.
pub open spec fn blob_text(db: Map<Seq<char>, ObjectView>, h: Seq<char>) -> Seq<char> {
    match db[h] {
        ObjectView::Blob(c) => c,
        _ => Seq::empty(),
    }
}

/// The texts of the blobs that the identifiers of `m` name.
pub open spec fn contents(db: Map<Seq<char>, ObjectView>, m: Map<Seq<char>, Seq<char>>) -> Map<
    Seq<char>,
    Seq<char>,
> {
    Map::new(|k: Seq<char>| m.contains_key(k), |k: Seq<char>| blob_text(db, m[k]))
}

/// The files that a list of changes leaves written: each path with the
/// last content written to it.
pub open spec fn write_map(acts: Seq<ActionView>) -> Map<Seq<char>, Seq<char>>
    decreases acts.len(),
{
    if acts.len() == 0 {
        Map::empty()
    } else {
        let m = write_map(acts.drop_last());
        match acts.last() {
            ActionView::File(p, c) => m.insert(p, c),
            ActionView::Dir(_) => m,
        }
    }
}

/// Each file of `t`, at any depth, names a blob in the store.
pub open spec fn stores_blobs(db: Map<Seq<char>, ObjectView>, t: InMemoryTree) -> bool
    decreases t,
{
    &&& forall|i: int|
        0 <= i < t.blobs@.len() ==> db.contains_key(#[trigger] t.blobs@[i].1@) && db[t.blobs@[i].1@] is Blob
    &&& forall|i: int| 0 <= i < t.trees@.len() ==> stores_blobs(db, #[trigger] t.trees@[i].1)
}

/// The files of the entries `i..` of `t`'s tree object, under `base`.
pub open spec fn suffix_files(t: InMemoryTree, base: Seq<char>, i: int) -> Map<Seq<char>, Seq<char>>
    decreases tree_entries(t).len() - i,
{
    let nb = t.blobs@.len() as int;
    let n = tree_entries(t).len() as int;
    if i < 0 || i >= n {
        Map::empty()
    } else if i < nb {
        Map::empty().insert(path_join(base, t.blobs@[i].0@), t.blobs@[i].1@).union_prefer_right(
            suffix_files(t, base, i + 1),
        )
    } else {
        tree_files(t.trees@[i - nb].1, path_join(base, t.trees@[i - nb].0@)).union_prefer_right(
            suffix_files(t, base, i + 1),
        )
    }
}

proof fn lemma_write_map_concat(a: Seq<ActionView>, b: Seq<ActionView>)
    ensures
        write_map(a + b) == write_map(a).union_prefer_right(write_map(b)),
    decreases b.len(),
{
    if b.len() == 0 {
        assert(a + b =~= a);
        assert(write_map(a).union_prefer_right(write_map(b)) =~= write_map(a));
    } else {
        lemma_write_map_concat(a, b.drop_last());
        assert((a + b).drop_last() =~= a + b.drop_last());
        assert((a + b).last() == b.last());
        match b.last() {
            ActionView::File(p, c) => {
                assert(write_map(a + b) =~= write_map(a).union_prefer_right(write_map(b)));
            },
            ActionView::Dir(_) => {
                assert(write_map(a + b) =~= write_map(a).union_prefer_right(write_map(b)));
            },
        }
    }
}

proof fn lemma_prefix_suffix(t: InMemoryTree, base: Seq<char>, i: int)
    requires
        0 <= i <= tree_entries(t).len(),
    ensures
        prefix_files(t, base, i).union_prefer_right(suffix_files(t, base, i)) == tree_files(t, base),
    decreases tree_entries(t).len() - i,
{
    let bs = t.blobs@;
    let ts = t.trees@;
    let nb = bs.len() as int;
    let n = tree_entries(t).len() as int;
    lemma_subtree_entries(ts);
    if i == n {
        assert(suffix_files(t, base, i) =~= Map::<Seq<char>, Seq<char>>::empty());
        assert(prefix_files(t, base, i) =~= tree_files(t, base)) by {
            if ts.len() == 0 {
                assert(bs.take(nb) =~= bs);
                assert(sub_files(ts, base) =~= Map::<Seq<char>, Seq<char>>::empty());
                assert(blob_files(bs, base).union_prefer_right(sub_files(ts, base)) =~= blob_files(
                    bs,
                    base,
                ));
            } else {
                assert(ts.take(i - nb) =~= ts);
            }
        }
        assert(prefix_files(t, base, i).union_prefer_right(suffix_files(t, base, i)) =~= tree_files(
            t,
            base,
        ));
    } else {
        lemma_prefix_suffix(t, base, i + 1);
        if i < nb {
            assert(bs.take(i + 1).drop_last() =~= bs.take(i));
        } else {
            let j = i - nb;
            assert(ts.take(j + 1).drop_last() =~= ts.take(j));
            assert(ts.take(j + 1).last() == ts[j]);
            if j == 0 {
                assert(bs.take(nb) =~= bs);
                assert(ts.take(0) =~= Seq::<(String, InMemoryTree)>::empty());
                assert(prefix_files(t, base, i) =~= blob_files(bs, base).union_prefer_right(
                    sub_files(ts.take(0), base),
                ));
            }
        }
        assert(prefix_files(t, base, i).union_prefer_right(suffix_files(t, base, i))
            =~= prefix_files(t, base, i + 1).union_prefer_right(suffix_files(t, base, i + 1)));
    }
}

/// Restoring a stored tree whose files are stored blobs writes, without
/// error, exactly its files placed under `base`, each with its blob's text,
/// given that the walk may go as deep as the tree.
pub proof fn lemma_restore_of_stored_tree(
    db: Map<Seq<char>, ObjectView>,
    t: InMemoryTree,
    base: Seq<char>,
    fuel: nat,
)
    requires
        stores_tree(db, t),
        stores_blobs(db, t),
        fuel >= height(t),
    ensures
        restore_spec(db, tree_summary(t).0, base, fuel).1 is None,
        write_map(restore_spec(db, tree_summary(t).0, base, fuel).0) == contents(
            db,
            tree_files(t, base),
        ),
    decreases t, tree_entries(t).len() + 1,
{
    lemma_restore_entries(db, t, base, (fuel - 1) as nat, 0);
    lemma_prefix_suffix(t, base, 0);
    assert(t.blobs@.take(0) =~= Seq::<(String, String)>::empty());
    assert(prefix_files(t, base, 0) =~= Map::<Seq<char>, Seq<char>>::empty());
    assert(prefix_files(t, base, 0).union_prefer_right(suffix_files(t, base, 0)) =~= suffix_files(
        t,
        base,
        0,
    ));
}

proof fn lemma_restore_entries(
    db: Map<Seq<char>, ObjectView>,
    t: InMemoryTree,
    base: Seq<char>,
    fuel: nat,
    i: int,
)
    requires
        stores_tree(db, t),
        stores_blobs(db, t),
        fuel >= heights(t.trees@),
        0 <= i <= tree_entries(t).len(),
    ensures
        restore_entries(db, tree_entries(t), i, base, fuel).1 is None,
        write_map(restore_entries(db, tree_entries(t), i, base, fuel).0) == contents(
            db,
            suffix_files(t, base, i),
        ),
    decreases t, tree_entries(t).len() - i,
{
    let es = tree_entries(t);
    let bs = t.blobs@;
    let ts = t.trees@;
    let nb = bs.len() as int;
    lemma_subtree_entries(ts);
    if i == es.len() {
        assert(write_map(Seq::<ActionView>::empty()) =~= contents(db, suffix_files(t, base, i)));
    } else if i < nb {
        let e = es[i];
        assert(e == EntryView { mode: file_mode(), name: bs[i].0@, hash: bs[i].1@ });
        assert(file_mode() != dir_mode()) by {
            reveal_strlit("100644");
            reveal_strlit("040000");
            assert(file_mode()[0] != dir_mode()[0]);
        }
        lemma_restore_entries(db, t, base, fuel, i + 1);
        let p = path_join(base, bs[i].0@);
        let c = blob_text(db, bs[i].1@);
        let rest = restore_entries(db, es, i + 1, base, fuel).0;
        assert(restore_entries(db, es, i, base, fuel).0 == seq![ActionView::File(p, c)] + rest);
        lemma_write_map_concat(seq![ActionView::File(p, c)], rest);
        assert(write_map(seq![ActionView::File(p, c)]) =~= Map::empty().insert(p, c)) by {
            assert(seq![ActionView::File(p, c)].drop_last() =~= Seq::<ActionView>::empty());
            assert(write_map(Seq::<ActionView>::empty()) == Map::<Seq<char>, Seq<char>>::empty());
            assert(seq![ActionView::File(p, c)].last() == ActionView::File(p, c));
        }
        assert(write_map(seq![ActionView::File(p, c)] + rest) =~= contents(
            db,
            suffix_files(t, base, i),
        ));
    } else {
        let j = i - nb;
        let sub = ts[j].1;
        let sb = path_join(base, ts[j].0@);
        let e = es[i];
        assert(e == EntryView { mode: dir_mode(), name: ts[j].0@, hash: tree_summary(sub).0 });
        assert(stores_tree(db, sub));
        assert(stores_blobs(db, sub));
        lemma_heights(ts);
        lemma_restore_of_stored_tree(db, sub, sb, fuel);
        lemma_restore_entries(db, t, base, fuel, i + 1);
        let a1 = restore_spec(db, tree_summary(sub).0, sb, fuel).0;
        let rest = restore_entries(db, es, i + 1, base, fuel).0;
        let first = seq![ActionView::Dir(sb)] + a1;
        assert(restore_entries(db, es, i, base, fuel).0 == first + rest);
        lemma_write_map_concat(first, rest);
        lemma_write_map_concat(seq![ActionView::Dir(sb)], a1);
        assert(write_map(seq![ActionView::Dir(sb)]) =~= Map::<Seq<char>, Seq<char>>::empty()) by {
            assert(seq![ActionView::Dir(sb)].drop_last() =~= Seq::<ActionView>::empty());
            assert(write_map(Seq::<ActionView>::empty()) == Map::<Seq<char>, Seq<char>>::empty());
            assert(seq![ActionView::Dir(sb)].last() == ActionView::Dir(sb));
        }
        assert(write_map(first + rest) =~= contents(db, suffix_files(t, base, i)));
    }
}

/// Where every file of a well-formed tree names a stored blob, so does
/// every file entry at any depth.
proof fn lemma_stores_blobs(db: Map<Seq<char>, ObjectView>, t: InMemoryTree)
    requires
        t.wf(),
        forall|p: Seq<char>|
            #[trigger] tree_get(t, p) is Some ==> db.contains_key(tree_get(t, p).unwrap())
                && db[tree_get(t, p).unwrap()] is Blob,
    ensures
        stores_blobs(db, t),
    decreases t,
{
    let bs = t.blobs@;
    let ts = t.trees@;
    assert forall|i: int| 0 <= i < bs.len() implies db.contains_key(#[trigger] bs[i].1@)
        && db[bs[i].1@] is Blob by {
        let name = bs[i].0@;
        assert(no_slash(name));
        lemma_get_file(t, name);
        lemma_key_pos(bs, i);
        assert(tree_get(t, name) is Some);
    }
    assert forall|i: int| 0 <= i < ts.len() implies stores_blobs(db, #[trigger] ts[i].1) by {
        let sub = ts[i].1;
        assert(sub.wf());
        assert forall|r: Seq<char>| #[trigger] tree_get(sub, r) is Some implies db.contains_key(
            tree_get(sub, r).unwrap(),
        ) && db[tree_get(sub, r).unwrap()] is Blob by {
            lemma_get_through(t, i, r);
            assert(tree_get(t, ts[i].0@ + seq!['/'] + r) is Some);
        }
        lemma_stores_blobs(db, sub);
    }
}

/// Law: checking out a commit restores the snapshot it records. For a
/// commit whose tree is a well-formed tree (such as the one
/// `build_root_tree` writes from a staging area) whose paths neither begin
/// with `/` nor hold `//`, once the store holds its tree objects and the
/// blob of each of its files, and no tree of the store contains itself,
/// checking the commit out succeeds: it writes each file `p`
/// of the tree as `./p` with the text of its blob, writes no other file,
/// and stages exactly the tree's files.
pub proof fn lemma_checkout_restores_snapshot(
    db: Map<Seq<char>, ObjectView>,
    commit: Seq<char>,
    c: crate::objects::CommitView,
    t: InMemoryTree,
)
    requires
        db.contains_key(commit),
        db[commit] == ObjectView::Commit(c),
        c.tree == tree_summary(t).0,
        t.wf(),
        forall|p: Seq<char>| #[trigger] t@.contains_key(p) ==> !lead_slash(p) && !contains_seq(p, "//"@),
        stores_tree(db, t),
        forall|p: Seq<char>| #[trigger] t@.contains_key(p) ==> db.contains_key(t@[p]) && db[t@[p]] is Blob,
        db.dom().finite(),
        !tree_cycle(db),
    ensures
        checkout_spec(db, commit).1 == Ok::<Map<Seq<char>, Seq<char>>, GitError>(t@),
        forall|k: Seq<char>|
            #[trigger] write_map(checkout_spec(db, commit).0).contains_key(k) <==> exists|p: Seq<char>|
                t@.contains_key(p) && k == "./"@ + p,
        forall|p: Seq<char>|
            #[trigger] t@.contains_key(p) ==> write_map(checkout_spec(db, commit).0)["./"@ + p]
                == blob_text(db, t@[p]),
{
    reveal_strlit("./");
    reveal_strlit(".");
    let n = db.dom().len();
    let dot = "."@;
    assert(good_base(dot));
    assert forall|p: Seq<char>| #[trigger] tree_get(t, p) is Some implies !lead_slash(p) && !contains_seq(
        p,
        "//"@,
    ) by {
        assert(t@.contains_key(p));
    }
    lemma_named_dirs(t);
    assert forall|p: Seq<char>| #[trigger] tree_get(t, p) is Some implies db.contains_key(
        tree_get(t, p).unwrap(),
    ) && db[tree_get(t, p).unwrap()] is Blob by {
        assert(t@.contains_key(p));
    }
    lemma_stores_blobs(db, t);
    let fuel: nat = if n >= height(t) { n } else { height(t) };
    lemma_restore_of_stored_tree(db, t, dot, fuel);
    lemma_tree_walks_bound_suffices(db, c.tree, dot, Map::empty(), fuel);
    lemma_checkout_round_trip(db, t);
    lemma_tree_files(t, dot);
    let acts = restore_spec(db, c.tree, dot, n).0;
    let f = tree_files(t, dot);
    assert(write_map(acts) == contents(db, f));
    assert forall|p: Seq<char>| !lead_slash(p) implies #[trigger] path_join(dot, p) == "./"@ + p by {
        lemma_unjoin(dot, p);
        assert(dot + seq!['/'] + p =~= "./"@ + p);
    }
    assert forall|k: Seq<char>| #[trigger] write_map(acts).contains_key(k) <==> exists|p: Seq<char>|
        t@.contains_key(p) && k == "./"@ + p by {
        if write_map(acts).contains_key(k) {
            assert(f.contains_key(k));
            let p = choose|p: Seq<char>| tree_get(t, p) is Some && k == path_join(dot, p);
            assert(t@.contains_key(p) && k == "./"@ + p);
        }
        if exists|p: Seq<char>| t@.contains_key(p) && k == "./"@ + p {
            let p = choose|p: Seq<char>| t@.contains_key(p) && k == "./"@ + p;
            assert(tree_get(t, p) is Some && k == path_join(dot, p));
            assert(f.contains_key(k));
        }
    }
    assert forall|p: Seq<char>| #[trigger] t@.contains_key(p) implies write_map(acts)["./"@ + p]
        == blob_text(db, t@[p]) by {
        let k = "./"@ + p;
        assert(tree_get(t, p) is Some && k == path_join(dot, p));
        assert(f.contains_key(k));
        lemma_unjoin(dot, p);
        assert(f[k] == tree_get(t, p).unwrap());
    }
}

} // verus!
