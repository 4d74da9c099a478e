//! The directory tree that a commit records, built from the staging area
//! and written out as tree objects, deepest first.
use vstd::prelude::*;
use crate::assoc::{
    has_key, key_pos, lemma_insert_new, lemma_key_pos, lemma_replace, search, sorted_keys,
};
use crate::hashing::hash_content;
use crate::index::Index;
use crate::objects::{
    dir_mode, encode_spec, entry_views, file_mode, object_id, EntryView, GitObject, ObjectView,
    TreeEntry,
};
use crate::text::{
    find_char, first_pos, is_first_pos, lemma_first_pos_absent, lemma_first_pos_is,
    lemma_first_pos_range, owned,
};

verus! {

/// A directory being assembled: its files (name and blob identifier) and
/// its subdirectories, each list in name order.
pub struct InMemoryTree {
    pub blobs: Vec<(String, String)>,
    pub trees: Vec<(String, InMemoryTree)>,
}

/// `s` holds no `/`.
pub open spec fn no_slash(s: Seq<char>) -> bool {
    forall|k: int| 0 <= k < s.len() ==> s[k] != '/'
}

/// The blob that `t` holds at the path `p`: a path with a `/` goes through
/// the subdirectory named by what precedes its first `/`.
pub open spec fn tree_get(t: InMemoryTree, p: Seq<char>) -> Option<Seq<char>>
    decreases p.len(),
{
    let k = first_pos(p, '/');
    if k < 0 {
        if has_key(t.blobs@, p) {
            Some(t.blobs@[key_pos(t.blobs@, p)].1@)
        } else {
            None
        }
    } else {
        let d = p.take(k);
        if has_key(t.trees@, d) {
            proof {
                lemma_first_pos_range(p, '/');
            }
            tree_get(t.trees@[key_pos(t.trees@, d)].1, p.skip(k + 1))
        } else {
            None
        }
    }
}

impl View for InMemoryTree {
    type V = Map<Seq<char>, Seq<char>>;

    /// The files of the tree, by full path.
    open spec fn view(&self) -> Map<Seq<char>, Seq<char>> {
        Map::new(|p: Seq<char>| tree_get(*self, p) is Some, |p: Seq<char>| tree_get(*self, p).unwrap())
    }
}

impl InMemoryTree {
    /// Both lists are in name order, no name holds a `/`, and every
    /// subdirectory is well formed and holds something.
    pub open spec fn wf(self) -> bool
        decreases self,
    {
        &&& sorted_keys(self.blobs@)
        &&& sorted_keys(self.trees@)
        &&& forall|i: int| 0 <= i < self.blobs@.len() ==> no_slash(#[trigger] self.blobs@[i].0@)
        &&& forall|i: int| 0 <= i < self.trees@.len() ==> no_slash(#[trigger] self.trees@[i].0@)
        &&& forall|i: int|
            0 <= i < self.trees@.len() ==> (#[trigger] self.trees@[i].1).wf() && !self.trees@[i].1.is_bare()
    }

    /// The tree has neither files nor subdirectories.
    pub open spec fn is_bare(self) -> bool {
        self.blobs@.len() == 0 && self.trees@.len() == 0
    }
}

/// The entries that the files of a tree contribute, in order.
pub open spec fn blob_entries(bs: Seq<(String, String)>) -> Seq<EntryView> {
    bs.map_values(|b: (String, String)| EntryView { mode: file_mode(), name: b.0@, hash: b.1@ })
}

/// What writing `t` gives: its identifier, and the tree objects written
/// (identifier and record), subdirectories first and `t` last.
pub open spec fn tree_summary(t: InMemoryTree) -> (Seq<char>, Seq<(Seq<char>, Seq<char>)>)
    decreases t,
{
    let (sub_entries, sub_objects) = subtrees_summary(t.trees@);
    let obj = ObjectView::Tree(blob_entries(t.blobs@) + sub_entries);
    let h = object_id(obj);
    (h, sub_objects.push((h, encode_spec(obj))))
}

/// What writing the subdirectories `ts` gives: their entries in the parent,
/// and the objects written, in order.
pub open spec fn subtrees_summary(ts: Seq<(String, InMemoryTree)>) -> (
    Seq<EntryView>,
    Seq<(Seq<char>, Seq<char>)>,
)
    decreases ts,
{
    if ts.len() == 0 {
        (seq![], seq![])
    } else {
        let (es, os) = subtrees_summary(ts.drop_last());
        let (h, o) = tree_summary(ts.last().1);
        (es.push(EntryView { mode: dir_mode(), name: ts.last().0@, hash: h }), os + o)
    }
}

/// The number of directories of `t`, itself included, at any depth.
pub open spec fn dir_count(t: InMemoryTree) -> nat
    decreases t,
{
    1 + dir_counts(t.trees@)
}

/// The number of directories of the subdirectories `ts`, at any depth.
pub open spec fn dir_counts(ts: Seq<(String, InMemoryTree)>) -> nat
    decreases ts,
{
    if ts.len() == 0 {
        0
    } else {
        dir_counts(ts.drop_last()) + dir_count(ts.last().1)
    }
}

/// The tree object of the directory `t` itself, as identifier and record:
/// its files, then its subdirectories under their identifiers.
pub open spec fn own_object(t: InMemoryTree) -> (Seq<char>, Seq<char>) {
    let obj = ObjectView::Tree(blob_entries(t.blobs@) + subtrees_summary(t.trees@).0);
    (object_id(obj), encode_spec(obj))
}

/// `objs` holds the tree object of `t` and of each of its directories, at
/// any depth.
pub open spec fn holds_every_dir(objs: Seq<(Seq<char>, Seq<char>)>, t: InMemoryTree) -> bool
    decreases t,
{
    &&& objs.contains(own_object(t))
    &&& forall|i: int| 0 <= i < t.trees@.len() ==> holds_every_dir(objs, #[trigger] t.trees@[i].1)
}

proof fn lemma_holds_more(objs: Seq<(Seq<char>, Seq<char>)>, more: Seq<(Seq<char>, Seq<char>)>, t: InMemoryTree)
    requires
        holds_every_dir(objs, t),
        forall|x: (Seq<char>, Seq<char>)| objs.contains(x) ==> #[trigger] more.contains(x),
    ensures
        holds_every_dir(more, t),
    decreases t,
{
    assert forall|i: int| 0 <= i < t.trees@.len() implies holds_every_dir(more, #[trigger] t.trees@[i].1) by {
        lemma_holds_more(objs, more, t.trees@[i].1);
    }
}

/// Law: writing a tree writes the tree object of every directory in it, at
/// any depth, and no more objects than there are directories: one per
/// directory, with the object of the tree itself last, under the
/// identifier that writing returns.
pub proof fn lemma_write_every_dir(t: InMemoryTree)
    ensures
        holds_every_dir(tree_summary(t).1, t),
        tree_summary(t).1.len() == dir_count(t),
        tree_summary(t).1.last() == own_object(t),
        tree_summary(t).0 == own_object(t).0,
    decreases t,
{
    let objs = tree_summary(t).1;
    let sub = subtrees_summary(t.trees@).1;
    lemma_subtrees_every_dir(t.trees@);
    assert(objs == sub.push(own_object(t)));
    assert(objs[objs.len() - 1] == own_object(t));
    assert forall|x: (Seq<char>, Seq<char>)| sub.contains(x) implies #[trigger] objs.contains(x) by {
        let k = choose|k: int| 0 <= k < sub.len() && sub[k] == x;
        assert(objs[k] == x);
    }
    assert forall|i: int| 0 <= i < t.trees@.len() implies holds_every_dir(objs, #[trigger] t.trees@[i].1) by {
        lemma_holds_more(sub, objs, t.trees@[i].1);
    }
}

proof fn lemma_subtrees_every_dir(ts: Seq<(String, InMemoryTree)>)
    ensures
        subtrees_summary(ts).1.len() == dir_counts(ts),
        forall|i: int| 0 <= i < ts.len() ==> holds_every_dir(subtrees_summary(ts).1, #[trigger] ts[i].1),
    decreases ts,
{
    if ts.len() > 0 {
        let init = ts.drop_last();
        let os = subtrees_summary(init).1;
        let o = tree_summary(ts.last().1).1;
        let all = subtrees_summary(ts).1;
        lemma_subtrees_every_dir(init);
        lemma_write_every_dir(ts.last().1);
        assert(all == os + o);
        assert forall|x: (Seq<char>, Seq<char>)| os.contains(x) implies #[trigger] all.contains(x) by {
            let k = choose|k: int| 0 <= k < os.len() && os[k] == x;
            assert(all[k] == x);
        }
        assert forall|x: (Seq<char>, Seq<char>)| o.contains(x) implies #[trigger] all.contains(x) by {
            let k = choose|k: int| 0 <= k < o.len() && o[k] == x;
            assert(all[os.len() + k] == x);
        }
        assert forall|i: int| 0 <= i < ts.len() implies holds_every_dir(all, #[trigger] ts[i].1) by {
            if i < ts.len() - 1 {
                assert(init[i] == ts[i]);
                lemma_holds_more(os, all, ts[i].1);
            } else {
                lemma_holds_more(o, all, ts[i].1);
            }
        }
    }
}

/// The texts of a list of text pairs.
pub open spec fn pair_views(s: Seq<(String, String)>) -> Seq<(Seq<char>, Seq<char>)> {
    s.map_values(|e: (String, String)| (e.0@, e.1@))
}

/// A bare tree holds no file.
pub proof fn lemma_bare_get(t: InMemoryTree, p: Seq<char>)
    requires
        t.is_bare(),
    ensures
        tree_get(t, p) is None,
{
    assert(!has_key(t.blobs@, p));
    if first_pos(p, '/') >= 0 {
        assert(!has_key(t.trees@, p.take(first_pos(p, '/'))));
    }
}

/// A lookup as the view gives it.
pub proof fn lemma_get_view(t: InMemoryTree, p: Seq<char>)
    ensures
        tree_get(t, p) == (if t@.contains_key(p) {
            Some(t@[p])
        } else {
            None
        }),
{
    if tree_get(t, p) is Some {
        assert(t@.contains_key(p));
    }
}

/// A path whose first `/` follows the name `d`.
pub proof fn lemma_split_path(d: Seq<char>, r: Seq<char>)
    requires
        no_slash(d),
    ensures
        first_pos(d + seq!['/'] + r, '/') == d.len(),
        (d + seq!['/'] + r).take(d.len() as int) == d,
        (d + seq!['/'] + r).skip(d.len() as int + 1) == r,
{
    let p = d + seq!['/'] + r;
    assert(is_first_pos(p, '/', d.len() as int));
    lemma_first_pos_is(p, '/', d.len() as int);
    assert(p.take(d.len() as int) =~= d);
    assert(p.skip(d.len() as int + 1) =~= r);
}

/// Looking up a path through a subdirectory.
pub proof fn lemma_get_through(t: InMemoryTree, i: int, r: Seq<char>)
    requires
        sorted_keys(t.trees@),
        0 <= i < t.trees@.len(),
        no_slash(t.trees@[i].0@),
    ensures
        tree_get(t, t.trees@[i].0@ + seq!['/'] + r) == tree_get(t.trees@[i].1, r),
{
    let d = t.trees@[i].0@;
    lemma_split_path(d, r);
    lemma_key_pos(t.trees@, i);
}

/// A path with no `/` names a file of the tree itself.
pub proof fn lemma_get_file(t: InMemoryTree, p: Seq<char>)
    requires
        no_slash(p),
    ensures
        tree_get(t, p) == (if has_key(t.blobs@, p) {
            Some(t.blobs@[key_pos(t.blobs@, p)].1@)
        } else {
            None
        }),
{
    lemma_first_pos_absent(p, '/');
}

/// A well-formed tree that is not bare holds some file.
pub proof fn lemma_not_bare_has_file(t: InMemoryTree)
    requires
        t.wf(),
        !t.is_bare(),
    ensures
        exists|p: Seq<char>| #[trigger] tree_get(t, p) is Some,
    decreases t,
{
    if t.blobs@.len() > 0 {
        let p = t.blobs@[0].0@;
        lemma_get_file(t, p);
        assert(has_key(t.blobs@, p));
        assert(tree_get(t, p) is Some);
    } else {
        let sub = t.trees@[0].1;
        assert(sub.wf() && !sub.is_bare());
        lemma_not_bare_has_file(sub);
        let r = choose|r: Seq<char>| #[trigger] tree_get(sub, r) is Some;
        lemma_get_through(t, 0, r);
        assert(tree_get(t, t.trees@[0].0@ + seq!['/'] + r) is Some);
    }
}

impl InMemoryTree {
    /// An empty directory.
    pub fn new() -> (r: InMemoryTree)
        ensures
            r.wf(),
            r.is_bare(),
            r@ == Map::<Seq<char>, Seq<char>>::empty(),
    {
        let r = InMemoryTree { blobs: Vec::new(), trees: Vec::new() };
        assert forall|p: Seq<char>| !(#[trigger] r@.contains_key(p)) by {
            lemma_bare_get(r, p);
        }
        assert(r@ =~= Map::<Seq<char>, Seq<char>>::empty());
        r
    }

    /// Records the blob `hash` at `path`, making the subdirectories that
    /// lead to it as needed.
    pub fn insert(&mut self, path: &str, hash: &str)
        requires
            old(self).wf(),
        ensures
            final(self).wf(),
            final(self)@ == old(self)@.insert(path@, hash@),
        decreases path@.len(),
    {
        let ghost before = *self;
        match find_char(path, '/') {
            Some(k) => {
                let n = path.unicode_len();
                let dir = path.substring_char(0, k);
                let rest = path.substring_char(k + 1, n);
                proof {
                    lemma_first_pos_range(path@, '/');
                    assert(path@ =~= dir@ + seq!['/'] + rest@);
                    assert(no_slash(dir@));
                }
                let (found, pos) = search(&self.trees, dir);
                let ghost sub_before: InMemoryTree;
                if found {
                    let (name, mut sub) = self.trees.remove(pos);
                    proof {
                        sub_before = sub;
                        assert(before.trees@[pos as int] == (name, sub));
                        assert(sub.wf());
                    }
                    sub.insert(rest, hash);
                    self.trees.insert(pos, (name, sub));
                    proof {
                        assert(self.trees@ =~= before.trees@.update(pos as int, (name, sub)));
                        lemma_replace(before.trees@, pos as int, (name, sub));
                    }
                } else {
                    let mut sub = InMemoryTree::new();
                    proof {
                        sub_before = sub;
                    }
                    sub.insert(rest, hash);
                    let name = owned(dir);
                    proof {
                        lemma_insert_new(before.trees@, pos as int, (name, sub));
                    }
                    self.trees.insert(pos, (name, sub));
                }
                proof {
                    let after = *self;
                    let p = pos as int;
                    let sub_after = after.trees@[p].1;
                    assert(after.trees@[p].0@ == dir@);
                    assert(sub_after@ == sub_before@.insert(rest@, hash@));
                    assert(sub_after@.contains_key(rest@));
                    assert(tree_get(sub_after, rest@) is Some);
                    if sub_after.is_bare() {
                        lemma_bare_get(sub_after, rest@);
                    }
                    assert(after.blobs == before.blobs);
                    // every other subdirectory is one that was there before
                    assert forall|i: int| 0 <= i < after.trees@.len() && i != p implies exists|j: int|
                        0 <= j < before.trees@.len() && #[trigger] after.trees@[i] == before.trees@[j] by {
                        if found {
                            assert(after.trees@[i] == before.trees@[i]);
                        } else if i < p {
                            assert(after.trees@[i] == before.trees@[i]);
                        } else {
                            assert(after.trees@[i] == before.trees@[i - 1]);
                        }
                    }
                    assert forall|i: int| 0 <= i < after.trees@.len() implies no_slash(
                        #[trigger] after.trees@[i].0@,
                    ) && (after.trees@[i].1).wf() && !after.trees@[i].1.is_bare() by {
                        if i != p {
                            let j = choose|j: int|
                                0 <= j < before.trees@.len() && #[trigger] after.trees@[i]
                                    == before.trees@[j];
                            assert(before.trees@[j].1.wf());
                        }
                    }
                    assert(after.wf());
                    // lookups
                    assert forall|q: Seq<char>| #[trigger] tree_get(after, q) == (if q == path@ {
                        Some(hash@)
                    } else {
                        tree_get(before, q)
                    }) by {
                        let kq = first_pos(q, '/');
                        lemma_first_pos_range(q, '/');
                        if kq < 0 {
                            if q == path@ {
                                assert(q[k as int] == '/');
                            }
                        } else {
                            let dq = q.take(kq);
                            let rq = q.skip(kq + 1);
                            assert(q =~= dq + seq!['/'] + rq);
                            assert(no_slash(dq));
                            if dq == dir@ {
                                lemma_key_pos(after.trees@, p);
                                assert(tree_get(after, q) == tree_get(sub_after, rq));
                                assert(sub_after@.contains_key(rq) == (tree_get(sub_after, rq) is Some));
                                if found {
                                    lemma_key_pos(before.trees@, p);
                                    assert(tree_get(before, q) == tree_get(sub_before, rq));
                                } else {
                                    lemma_bare_get(sub_before, rq);
                                    assert(tree_get(before, q) is None);
                                }
                                lemma_get_view(sub_after, rq);
                                lemma_get_view(sub_before, rq);
                                if rq == rest@ {
                                    assert(q =~= path@);
                                } else {
                                    assert(q != path@) by {
                                        if q == path@ {
                                            lemma_split_path(dir@, rest@);
                                            lemma_split_path(dq, rq);
                                        }
                                    }
                                }
                            } else {
                                assert(q != path@) by {
                                    if q == path@ {
                                        lemma_split_path(dir@, rest@);
                                        lemma_split_path(dq, rq);
                                    }
                                }
                                assert(has_key(after.trees@, dq) == has_key(before.trees@, dq));
                                if has_key(before.trees@, dq) {
                                    assert(after.trees@[key_pos(after.trees@, dq)]
                                        == before.trees@[key_pos(before.trees@, dq)]);
                                }
                            }
                        }
                    }
                    assert(after@ =~= before@.insert(path@, hash@));
                }
            },
            None => {
                let (found, pos) = search(&self.blobs, path);
                let e = (owned(path), owned(hash));
                let ghost ge = e;
                if found {
                    proof {
                        lemma_replace(before.blobs@, pos as int, ge);
                    }
                    self.blobs.set(pos, e);
                } else {
                    proof {
                        lemma_insert_new(before.blobs@, pos as int, ge);
                    }
                    self.blobs.insert(pos, e);
                }
                proof {
                    let after = *self;
                    assert(no_slash(path@)) by {
                        lemma_first_pos_range(path@, '/');
                        if !no_slash(path@) {
                            let k = choose|k: int| 0 <= k < path@.len() && path@[k] == '/';
                            assert(exists|i: int| is_first_pos(path@, '/', i)) by {
                                let first = first_index(path@, k);
                                assert(is_first_pos(path@, '/', first));
                            }
                        }
                    }
                    assert forall|i: int| 0 <= i < after.blobs@.len() implies no_slash(
                        #[trigger] after.blobs@[i].0@,
                    ) by {
                        if found {
                            if i != pos {
                                assert(after.blobs@[i] == before.blobs@[i]);
                            }
                        } else if i < pos {
                            assert(after.blobs@[i] == before.blobs@[i]);
                        } else if i > pos {
                            assert(after.blobs@[i] == before.blobs@[i - 1]);
                        }
                    }
                    assert(after.trees == before.trees);
                    assert(after.wf());
                    assert forall|q: Seq<char>| #[trigger] tree_get(after, q) == (if q == path@ {
                        Some(hash@)
                    } else {
                        tree_get(before, q)
                    }) by {
                        let kq = first_pos(q, '/');
                        lemma_first_pos_range(q, '/');
                        if kq < 0 {
                            if q != path@ {
                                assert(has_key(after.blobs@, q) == has_key(before.blobs@, q));
                                if has_key(before.blobs@, q) {
                                    assert(after.blobs@[key_pos(after.blobs@, q)]
                                        == before.blobs@[key_pos(before.blobs@, q)]);
                                }
                            }
                        } else {
                            assert(q[kq] == '/');
                            assert(q != path@);
                        }
                    }
                    assert(after@ =~= before@.insert(path@, hash@));
                }
            },
        }
    }
}

impl InMemoryTree {
    /// Writes the tree: each subdirectory first, in name order, then this
    /// directory's own tree object, whose entries are its files in name
    /// order followed by its subdirectories in name order. Returns the
    /// identifier of this directory's object and every tree object to store
    /// (identifier and record), in the order they are written.
    pub fn write(&self) -> (r: (String, Vec<(String, String)>))
        ensures
            r.0@ == tree_summary(*self).0,
            pair_views(r.1@) == tree_summary(*self).1,
            holds_every_dir(pair_views(r.1@), *self),
            r.1@.len() == dir_count(*self),
        decreases self,
    {
        let mut entries: Vec<TreeEntry> = Vec::new();
        let mut objects: Vec<(String, String)> = Vec::new();
        let mut i: usize = 0;
        while i < self.blobs.len()
            invariant
                i <= self.blobs.len(),
                entry_views(entries@) == blob_entries(self.blobs@.take(i as int)),
                objects@.len() == 0,
            decreases self.blobs.len() - i,
        {
            let e = TreeEntry {
                mode: owned("100644"),
                name: self.blobs[i].0.clone(),
                hash: self.blobs[i].1.clone(),
            };
            let ghost ev = e@;
            let ghost old_entries = entries@;
            assert(ev == EntryView { mode: file_mode(), name: self.blobs@[i as int].0@, hash: self.blobs@[i as int].1@ });
            entries.push(e);
            assert(entry_views(entries@) =~= entry_views(old_entries).push(ev));
            assert(blob_entries(self.blobs@.take(i + 1)) =~= blob_entries(self.blobs@.take(i as int)).push(ev));
            i = i + 1;
        }
        assert(self.blobs@.take(i as int) =~= self.blobs@);
        let ghost file_entries = entry_views(entries@);
        let mut j: usize = 0;
        assert(self.trees@.take(0) =~= Seq::<(String, InMemoryTree)>::empty());
        assert(entry_views(entries@) =~= file_entries + Seq::<EntryView>::empty());
        assert(pair_views(objects@) =~= Seq::<(Seq<char>, Seq<char>)>::empty());
        while j < self.trees.len()
            invariant
                j <= self.trees.len(),
                file_entries == blob_entries(self.blobs@),
                entry_views(entries@) == file_entries + subtrees_summary(self.trees@.take(j as int)).0,
                pair_views(objects@) == subtrees_summary(self.trees@.take(j as int)).1,
            decreases self.trees.len() - j,
        {
            let ghost prefix = self.trees@.take(j as int);
            let ghost next = self.trees@.take(j + 1);
            assert(next.drop_last() =~= prefix);
            assert(next.last() == self.trees@[j as int]);
            let (h, mut objs) = self.trees[j].1.write();
            let ghost old_entries = entries@;
            let ghost old_objects = objects@;
            entries.push(TreeEntry { mode: owned("040000"), name: self.trees[j].0.clone(), hash: h });
            objects.append(&mut objs);
            j = j + 1;
            assert(entry_views(entries@) =~= entry_views(old_entries).push(entries@.last()@));
            assert(pair_views(objects@) =~= pair_views(old_objects) + tree_summary(
                self.trees@[j - 1].1,
            ).1);
            assert(entry_views(entries@) =~= file_entries + subtrees_summary(next).0);
        }
        assert(self.trees@.take(j as int) =~= self.trees@);
        let obj = GitObject::Tree(entries);
        let content = obj.encode();
        let h = hash_content(content.as_str());
        let ghost before = objects@;
        objects.push((h.clone(), content));
        assert(pair_views(objects@) =~= pair_views(before).push((h@, content@)));
        proof {
            lemma_write_every_dir(*self);
        }
        (h, objects)
    }
}

/// The tree that a staging area stands for: a well-formed tree whose files
/// are exactly the staged paths.
pub open spec fn snapshot(files: Map<Seq<char>, Seq<char>>) -> InMemoryTree {
    choose|t: InMemoryTree| t.wf() && t@ == files
}

/// Builds the root tree from the staging area and writes it. Returns the
/// root tree's identifier and the tree objects to store, in the order they
/// are written; both are those of the snapshot of the staged files.
pub fn build_root_tree(index: &Index) -> (r: (String, Vec<(String, String)>))
    requires
        index.wf(),
    ensures
        snapshot(index@).wf(),
        snapshot(index@)@ == index@,
        r.0@ == tree_summary(snapshot(index@)).0,
        pair_views(r.1@) == tree_summary(snapshot(index@)).1,
        holds_every_dir(pair_views(r.1@), snapshot(index@)),
        r.1@.len() == dir_count(snapshot(index@)),
{
    let entries = index.entries();
    let mut root = InMemoryTree::new();
    let mut i: usize = 0;
    while i < entries.len()
        invariant
            i <= entries.len(),
            root.wf(),
            forall|p: Seq<char>| #[trigger] root@.contains_key(p) <==> exists|k: int| 0 <= k < i && entries@[k].0@ == p,
            forall|k: int| 0 <= k < i ==> #[trigger] root@[entries@[k].0@] == entries@[k].1@,
            crate::assoc::sorted_keys(entries@),
        decreases entries.len() - i,
    {
        root.insert(entries[i].0.as_str(), entries[i].1.as_str());
        proof {
            assert forall|k: int| 0 <= k < i + 1 implies #[trigger] root@[entries@[k].0@] == entries@[k].1@ by {
                if k < i {
                    crate::text::lemma_chars_lt_irreflexive(entries@[k].0@);
                    assert(entries@[k].0@ != entries@[i as int].0@);
                }
            }
        }
        i = i + 1;
    }
    proof {
        assert forall|p: Seq<char>| #[trigger] root@.contains_key(p) == index@.contains_key(p) by {
            if root@.contains_key(p) {
                let k = choose|k: int| 0 <= k < i && entries@[k].0@ == p;
                assert(has_key(entries@, p));
            }
            if index@.contains_key(p) {
                let k = choose|k: int| 0 <= k < entries@.len() && #[trigger] entries@[k].0@ == p;
            }
        }
        assert forall|p: Seq<char>| #[trigger] root@.contains_key(p) implies root@[p] == index@[p] by {
            let k = choose|k: int| 0 <= k < i && entries@[k].0@ == p;
            lemma_key_pos(entries@, k);
        }
        assert(root@ =~= index@);
        assert(root.wf() && root@ == index@);
        let t = snapshot(index@);
        assert(t.wf() && t@ == index@);
        lemma_summary_canonical(root, t);
    }
    let r = root.write();
    proof {
        lemma_write_every_dir(snapshot(index@));
        assert(pair_views(r.1@).len() == r.1@.len());
    }
    r
}

/// Two lists in key order with the same keys have the same keys at the same
/// places.
pub proof fn lemma_sorted_same_keys<V, W>(s1: Seq<(String, V)>, s2: Seq<(String, W)>)
    requires
        sorted_keys(s1),
        sorted_keys(s2),
        forall|k: Seq<char>| #[trigger] has_key(s1, k) == has_key(s2, k),
    ensures
        s1.len() == s2.len(),
        forall|i: int| 0 <= i < s1.len() ==> #[trigger] s1[i].0@ == s2[i].0@,
    decreases s1.len() + s2.len(),
{
    if s1.len() == 0 {
        if s2.len() > 0 {
            assert(has_key(s2, s2[0].0@));
            assert(!has_key(s1, s2[0].0@));
        }
    } else if s2.len() == 0 {
        assert(has_key(s1, s1[0].0@));
        assert(!has_key(s2, s1[0].0@));
    } else {
        let a = s1[0].0@;
        let b = s2[0].0@;
        assert(has_key(s1, a));
        assert(has_key(s2, b));
        assert(has_key(s2, a));
        assert(has_key(s1, b));
        let j = choose|j: int| 0 <= j < s2.len() && #[trigger] s2[j].0@ == a;
        let i = choose|i: int| 0 <= i < s1.len() && #[trigger] s1[i].0@ == b;
        if a != b {
            assert(j > 0 && i > 0);
            assert(crate::text::chars_lt(s2[0].0@, s2[j].0@));
            assert(crate::text::chars_lt(s1[0].0@, s1[i].0@));
            crate::text::lemma_chars_lt_asymmetric(a, b);
        }
        let t1 = s1.drop_first();
        let t2 = s2.drop_first();
        assert forall|k: Seq<char>| #[trigger] has_key(t1, k) == has_key(t2, k) by {
            crate::text::lemma_chars_lt_irreflexive(a);
            if has_key(t1, k) {
                let x = choose|x: int| 0 <= x < t1.len() && #[trigger] t1[x].0@ == k;
                assert(s1[x + 1].0@ == k);
                assert(crate::text::chars_lt(s1[0].0@, s1[x + 1].0@));
                assert(has_key(s1, k));
                assert(has_key(s2, k));
                let y = choose|y: int| 0 <= y < s2.len() && #[trigger] s2[y].0@ == k;
                assert(y != 0);
                assert(t2[y - 1].0@ == k);
            }
            if has_key(t2, k) {
                let x = choose|x: int| 0 <= x < t2.len() && #[trigger] t2[x].0@ == k;
                assert(s2[x + 1].0@ == k);
                assert(crate::text::chars_lt(s2[0].0@, s2[x + 1].0@));
                assert(has_key(s2, k));
                assert(has_key(s1, k));
                let y = choose|y: int| 0 <= y < s1.len() && #[trigger] s1[y].0@ == k;
                assert(y != 0);
                assert(t1[y - 1].0@ == k);
            }
        }
        lemma_sorted_same_keys(t1, t2);
        assert forall|x: int| 0 <= x < s1.len() implies #[trigger] s1[x].0@ == s2[x].0@ by {
            if x > 0 {
                assert(t1[x - 1].0@ == t2[x - 1].0@);
            }
        }
    }
}

/// Subdirectory lists with the same names whose members write the same
/// way write the same way.
pub proof fn lemma_subtrees_summary_eq(ts1: Seq<(String, InMemoryTree)>, ts2: Seq<(String, InMemoryTree)>)
    requires
        ts1.len() == ts2.len(),
        forall|i: int| 0 <= i < ts1.len() ==> #[trigger] ts1[i].0@ == ts2[i].0@,
        forall|i: int| 0 <= i < ts1.len() ==> #[trigger] tree_summary(ts1[i].1) == tree_summary(ts2[i].1),
    ensures
        subtrees_summary(ts1) == subtrees_summary(ts2),
    decreases ts1.len(),
{
    if ts1.len() > 0 {
        lemma_subtrees_summary_eq(ts1.drop_last(), ts2.drop_last());
        assert(ts1.last().0@ == ts2.last().0@);
        assert(tree_summary(ts1.last().1) == tree_summary(ts2.last().1));
    }
}

/// A subdirectory name of a well-formed tree is exactly a name without `/`
/// under which the tree holds some file.
pub proof fn lemma_dir_names(t: InMemoryTree, d: Seq<char>)
    requires
        t.wf(),
    ensures
        has_key(t.trees@, d) <==> (no_slash(d) && exists|r: Seq<char>|
            #[trigger] tree_get(t, d + seq!['/'] + r) is Some),
{
    if has_key(t.trees@, d) {
        let i = key_pos(t.trees@, d);
        lemma_key_pos(t.trees@, i);
        let sub = t.trees@[i].1;
        assert(sub.wf() && !sub.is_bare());
        lemma_not_bare_has_file(sub);
        let r = choose|r: Seq<char>| #[trigger] tree_get(sub, r) is Some;
        lemma_get_through(t, i, r);
        assert(tree_get(t, d + seq!['/'] + r) is Some);
    }
    if no_slash(d) && exists|r: Seq<char>| #[trigger] tree_get(t, d + seq!['/'] + r) is Some {
        let r = choose|r: Seq<char>| #[trigger] tree_get(t, d + seq!['/'] + r) is Some;
        lemma_split_path(d, r);
    }
}

/// A directory as texts: its files (name and blob identifier) and its
/// subdirectories (name and contents), each list in name order.
pub struct TreeShape {
    pub files: Seq<(Seq<char>, Seq<char>)>,
    pub dirs: Seq<(Seq<char>, TreeShape)>,
}

/// The tree `t` as texts, level by level.
pub open spec fn shape(t: InMemoryTree) -> TreeShape
    decreases t,
{
    TreeShape { files: pair_views(t.blobs@), dirs: shapes(t.trees@) }
}

/// The subdirectories `ts` as texts, in order.
pub open spec fn shapes(ts: Seq<(String, InMemoryTree)>) -> Seq<(Seq<char>, TreeShape)>
    decreases ts,
{
    if ts.len() == 0 {
        seq![]
    } else {
        shapes(ts.drop_last()).push((ts.last().0@, shape(ts.last().1)))
    }
}

proof fn lemma_shapes_index(ts: Seq<(String, InMemoryTree)>)
    ensures
        shapes(ts).len() == ts.len(),
        forall|i: int| 0 <= i < ts.len() ==> #[trigger] shapes(ts)[i] == (ts[i].0@, shape(ts[i].1)),
    decreases ts.len(),
{
    if ts.len() > 0 {
        lemma_shapes_index(ts.drop_last());
        assert forall|i: int| 0 <= i < ts.len() implies #[trigger] shapes(ts)[i] == (ts[i].0@, shape(ts[i].1)) by {
            if i < ts.len() - 1 {
                assert(ts.drop_last()[i] == ts[i]);
            }
        }
    }
}

/// Law: a well-formed tree is determined by its files. Two well-formed
/// trees that hold the same files at the same paths are the same tree,
/// level by level: the same files and the same subdirectories, under the
/// same names, in the same order.
pub proof fn lemma_same_files_same_tree(t1: InMemoryTree, t2: InMemoryTree)
    requires
        t1.wf(),
        t2.wf(),
        t1@ == t2@,
    ensures
        shape(t1) == shape(t2),
    decreases t1,
{
    assert forall|p: Seq<char>| #[trigger] tree_get(t1, p) == tree_get(t2, p) by {
        lemma_get_view(t1, p);
        lemma_get_view(t2, p);
    }
    // files
    assert forall|k: Seq<char>| #[trigger] has_key(t1.blobs@, k) == has_key(t2.blobs@, k) by {
        if no_slash(k) {
            lemma_get_file(t1, k);
            lemma_get_file(t2, k);
        } else {
            if has_key(t1.blobs@, k) {
                let i = choose|i: int| 0 <= i < t1.blobs@.len() && #[trigger] t1.blobs@[i].0@ == k;
                assert(no_slash(t1.blobs@[i].0@));
            }
            if has_key(t2.blobs@, k) {
                let i = choose|i: int| 0 <= i < t2.blobs@.len() && #[trigger] t2.blobs@[i].0@ == k;
                assert(no_slash(t2.blobs@[i].0@));
            }
        }
    }
    lemma_sorted_same_keys(t1.blobs@, t2.blobs@);
    assert forall|i: int| 0 <= i < t1.blobs@.len() implies #[trigger] t1.blobs@[i].1@
        == t2.blobs@[i].1@ by {
        let k = t1.blobs@[i].0@;
        assert(t2.blobs@[i].0@ == k);
        assert(no_slash(k));
        lemma_key_pos(t1.blobs@, i);
        lemma_key_pos(t2.blobs@, i);
        lemma_get_file(t1, k);
        lemma_get_file(t2, k);
    }
    assert(pair_views(t1.blobs@) =~= pair_views(t2.blobs@));
    // subdirectories
    assert forall|d: Seq<char>| #[trigger] has_key(t1.trees@, d) == has_key(t2.trees@, d) by {
        lemma_dir_names(t1, d);
        lemma_dir_names(t2, d);
        if no_slash(d) {
            if exists|r: Seq<char>| #[trigger] tree_get(t1, d + seq!['/'] + r) is Some {
                let r = choose|r: Seq<char>| #[trigger] tree_get(t1, d + seq!['/'] + r) is Some;
                assert(tree_get(t2, d + seq!['/'] + r) is Some);
            }
            if exists|r: Seq<char>| #[trigger] tree_get(t2, d + seq!['/'] + r) is Some {
                let r = choose|r: Seq<char>| #[trigger] tree_get(t2, d + seq!['/'] + r) is Some;
                assert(tree_get(t1, d + seq!['/'] + r) is Some);
            }
        }
    }
    lemma_sorted_same_keys(t1.trees@, t2.trees@);
    assert forall|i: int| 0 <= i < t1.trees@.len() implies #[trigger] shape(t1.trees@[i].1)
        == shape(t2.trees@[i].1) by {
        let s1 = t1.trees@[i].1;
        let s2 = t2.trees@[i].1;
        assert(s1.wf() && s2.wf());
        assert forall|r: Seq<char>| #[trigger] tree_get(s1, r) == tree_get(s2, r) by {
            lemma_get_through(t1, i, r);
            lemma_get_through(t2, i, r);
        }
        assert forall|r: Seq<char>| #[trigger] s1@.contains_key(r) == s2@.contains_key(r) by {}
        assert(s1@ =~= s2@);
        lemma_same_files_same_tree(s1, s2);
    }
    lemma_shapes_index(t1.trees@);
    lemma_shapes_index(t2.trees@);
    assert(shapes(t1.trees@) =~= shapes(t2.trees@));
}

/// Trees that are the same as texts write the same objects.
pub proof fn lemma_same_shape_same_summary(t1: InMemoryTree, t2: InMemoryTree)
    requires
        shape(t1) == shape(t2),
    ensures
        tree_summary(t1) == tree_summary(t2),
    decreases t1,
{
    let b1 = t1.blobs@;
    let b2 = t2.blobs@;
    assert(pair_views(b1) == pair_views(b2));
    assert(b1.len() == pair_views(b1).len() && b2.len() == pair_views(b2).len());
    assert forall|i: int| 0 <= i < b1.len() implies #[trigger] b1[i].0@ == b2[i].0@ && b1[i].1@ == b2[i].1@ by {
        assert(pair_views(b1)[i] == pair_views(b2)[i]);
    }
    assert(blob_entries(b1) =~= blob_entries(b2));
    lemma_shapes_index(t1.trees@);
    lemma_shapes_index(t2.trees@);
    assert forall|i: int| 0 <= i < t1.trees@.len() implies #[trigger] t1.trees@[i].0@ == t2.trees@[i].0@ by {
        assert(shapes(t1.trees@)[i] == shapes(t2.trees@)[i]);
    }
    assert forall|i: int| 0 <= i < t1.trees@.len() implies #[trigger] tree_summary(t1.trees@[i].1)
        == tree_summary(t2.trees@[i].1) by {
        assert(shapes(t1.trees@)[i] == shapes(t2.trees@)[i]);
        lemma_same_shape_same_summary(t1.trees@[i].1, t2.trees@[i].1);
    }
    lemma_subtrees_summary_eq(t1.trees@, t2.trees@);
}

/// Law: writing a well-formed tree depends on its files alone. Two
/// well-formed trees that hold the same files at the same paths write the
/// same objects and get the same identifier.
pub proof fn lemma_summary_canonical(t1: InMemoryTree, t2: InMemoryTree)
    requires
        t1.wf(),
        t2.wf(),
        t1@ == t2@,
    ensures
        tree_summary(t1) == tree_summary(t2),
{
    lemma_same_files_same_tree(t1, t2);
    lemma_same_shape_same_summary(t1, t2);
}

/// Law: inserting two different paths into a tree, in either order, gives
/// the same tree (`t1` and `t2` are the trees that `InMemoryTree::insert`
/// leaves after inserting `p` then `q`, and `q` then `p`, into `t0`).
pub proof fn lemma_insert_order(
    t0: InMemoryTree,
    t1: InMemoryTree,
    t2: InMemoryTree,
    p: Seq<char>,
    hp: Seq<char>,
    q: Seq<char>,
    hq: Seq<char>,
)
    requires
        p != q,
        t1.wf(),
        t2.wf(),
        t1@ == t0@.insert(p, hp).insert(q, hq),
        t2@ == t0@.insert(q, hq).insert(p, hp),
    ensures
        shape(t1) == shape(t2),
{
    assert(t1@ =~= t2@);
    lemma_same_files_same_tree(t1, t2);
}

/// Law: inserting a path twice gives the same tree as inserting it once
/// with the later blob (`t1` is what inserting `p` with `h1` then with `h2`
/// leaves of `t0`, `t2` what inserting it with `h2` alone leaves).
pub proof fn lemma_insert_again(
    t0: InMemoryTree,
    t1: InMemoryTree,
    t2: InMemoryTree,
    p: Seq<char>,
    h1: Seq<char>,
    h2: Seq<char>,
)
    requires
        t1.wf(),
        t2.wf(),
        t1@ == t0@.insert(p, h1).insert(p, h2),
        t2@ == t0@.insert(p, h2),
    ensures
        shape(t1) == shape(t2),
{
    assert(t1@ =~= t2@);
    lemma_same_files_same_tree(t1, t2);
}

/// The first position of `/` in `s`, given that one occurs at or before `k`.
pub proof fn first_index(s: Seq<char>, k: int) -> (i: int)
    requires
        0 <= k < s.len(),
        s[k] == '/',
    ensures
        is_first_pos(s, '/', i),
    decreases k,
{
    if exists|j: int| 0 <= j < k && s[j] == '/' {
        let j = choose|j: int| 0 <= j < k && s[j] == '/';
        first_index(s, j)
    } else {
        k
    }
}

} // verus!
