//! The object store as the library sees it: objects by identifier, and the
//! errors that walking it can meet.
use vstd::prelude::*;
use crate::assoc::{
    has_key, key_pos, key_set, lemma_insert_new, lemma_key_pos, lemma_key_set, lemma_replace,
    search, sorted_keys,
};
use crate::objects::{entry_views, texts, Commit, GitObject, ObjectView, TreeEntry};

verus! {

/// What can go wrong when the library reads the store or the references.
#[derive(PartialEq, Eq, Structural, Clone, Copy, Debug)]
pub enum GitError {
    /// An object that the walk needs is not in the store (or could not be read).
    ObjectNotFound,
    /// The object that should be a commit is something else.
    NotACommit,
    /// The object that should be a tree is something else.
    NotATree,
    /// The object that should be a blob is something else.
    NotABlob,
    /// The walk came back to an object it is already inside: the store's
    /// objects refer to each other in a circle.
    HistoryLoop,
    /// A merge was asked for before the first commit.
    NothingToMerge,
    /// The branch to merge does not exist.
    NoSuchBranch,
    /// The branch to merge is not ahead of the current commit.
    NonFastForward,
}

impl GitError {
    /// The message that reports the error.
    pub fn message(&self) -> (r: &'static str)
        ensures
            r@ == match self {
                GitError::ObjectNotFound => "Object not found"@,
                GitError::NotACommit => "Not a commit"@,
                GitError::NotATree => "Not a tree"@,
                GitError::NotABlob => "Not a blob"@,
                GitError::HistoryLoop => "Objects refer to each other in a loop"@,
                GitError::NothingToMerge => "Nothing to merge into"@,
                GitError::NoSuchBranch => "Branch does not exist"@,
                GitError::NonFastForward => "Non-fast-forward merge not supported yet"@,
            },
    {
        match self {
            GitError::ObjectNotFound => "Object not found",
            GitError::NotACommit => "Not a commit",
            GitError::NotATree => "Not a tree",
            GitError::NotABlob => "Not a blob",
            GitError::HistoryLoop => "Objects refer to each other in a loop",
            GitError::NothingToMerge => "Nothing to merge into",
            GitError::NoSuchBranch => "Branch does not exist",
            GitError::NonFastForward => "Non-fast-forward merge not supported yet",
        }
    }
}

/// A map from identifier to object.
pub struct ObjectStore {
    objects: Vec<(String, GitObject)>,
}

impl View for ObjectStore {
    type V = Map<Seq<char>, ObjectView>;

    closed spec fn view(&self) -> Map<Seq<char>, ObjectView> {
        Map::new(
            |k: Seq<char>| has_key(self.objects@, k),
            |k: Seq<char>| self.objects@[key_pos(self.objects@, k)].1@,
        )
    }
}

impl TreeEntry {
    /// A copy of the entry.
    pub fn duplicate(&self) -> (r: TreeEntry)
        ensures
            r@ == self@,
    {
        TreeEntry { mode: self.mode.clone(), name: self.name.clone(), hash: self.hash.clone() }
    }
}

/// A copy of a list of texts.
pub fn copy_strings(v: &Vec<String>) -> (r: Vec<String>)
    ensures
        texts(r@) == texts(v@),
{
    let mut r: Vec<String> = Vec::new();
    let mut i: usize = 0;
    while i < v.len()
        invariant
            i <= v.len(),
            texts(r@) == texts(v@.take(i as int)),
        decreases v.len() - i,
    {
        let x = v[i].clone();
        assert(x@ == v@[i as int]@);
        let ghost before = r@;
        r.push(x);
        assert(texts(r@) =~= texts(before).push(x@));
        assert(v@.take(i + 1) =~= v@.take(i as int).push(v@[i as int]));
        assert(texts(v@.take(i + 1)) =~= texts(v@.take(i as int)).push(v@[i as int]@));
        i = i + 1;
    }
    assert(v@.take(i as int) =~= v@);
    r
}

impl Commit {
    /// A copy of the commit.
    pub fn duplicate(&self) -> (r: Commit)
        ensures
            r@ == self@,
    {
        Commit {
            tree: self.tree.clone(),
            parents: copy_strings(&self.parents),
            author: self.author.clone(),
            message: self.message.clone(),
            timestamp: self.timestamp,
        }
    }
}

impl GitObject {
    /// A copy of the object.
    pub fn duplicate(&self) -> (r: GitObject)
        ensures
            r@ == self@,
    {
        match self {
            GitObject::Blob(c) => GitObject::Blob(c.clone()),
            GitObject::Tree(es) => {
                let mut r: Vec<TreeEntry> = Vec::new();
                let mut i: usize = 0;
                while i < es.len()
                    invariant
                        i <= es.len(),
                        entry_views(r@) == entry_views(es@.take(i as int)),
                    decreases es.len() - i,
                {
                    let x = es[i].duplicate();
                    let ghost before = r@;
                    r.push(x);
                    assert(entry_views(r@) =~= entry_views(before).push(x@));
                    assert(es@.take(i + 1) =~= es@.take(i as int).push(es@[i as int]));
                    assert(entry_views(es@.take(i + 1)) =~= entry_views(es@.take(i as int)).push(
                        es@[i as int]@,
                    ));
                    i = i + 1;
                }
                assert(es@.take(i as int) =~= es@);
                GitObject::Tree(r)
            },
            GitObject::Commit(c) => GitObject::Commit(c.duplicate()),
        }
    }
}

impl ObjectStore {
    /// The entries are in strictly increasing identifier order.
    pub closed spec fn wf(&self) -> bool {
        sorted_keys(self.objects@)
    }

    /// An empty store.
    pub fn new() -> (r: ObjectStore)
        ensures
            r.wf(),
            r@ == Map::<Seq<char>, ObjectView>::empty(),
    {
        let r = ObjectStore { objects: Vec::new() };
        assert(r@ =~= Map::<Seq<char>, ObjectView>::empty());
        r
    }

    /// The number of objects.
    pub fn len(&self) -> (r: usize)
        requires
            self.wf(),
        ensures
            self@.dom().finite(),
            r == self@.dom().len(),
    {
        proof {
            lemma_key_set(self.objects@);
            assert(self@.dom() =~= key_set(self.objects@));
        }
        self.objects.len()
    }

    /// The object stored under `hash`.
    pub fn get(&self, hash: &str) -> (r: Option<&GitObject>)
        requires
            self.wf(),
        ensures
            match r {
                Some(o) => self@.contains_key(hash@) && self@[hash@] == o@,
                None => !self@.contains_key(hash@),
            },
    {
        let (found, pos) = search(&self.objects, hash);
        if found {
            proof {
                lemma_key_pos(self.objects@, pos as int);
            }
            Some(&self.objects[pos].1)
        } else {
            None
        }
    }

    /// Stores `object` under `hash`, in place of what was stored there.
    pub fn insert(&mut self, hash: String, object: GitObject)
        requires
            old(self).wf(),
        ensures
            final(self).wf(),
            final(self)@ == old(self)@.insert(hash@, object@),
    {
        let ghost before = self.objects@;
        let (found, pos) = search(&self.objects, hash.as_str());
        let ghost e = (hash, object);
        if found {
            proof {
                lemma_replace(before, pos as int, e);
            }
            self.objects.set(pos, (hash, object));
        } else {
            proof {
                lemma_insert_new(before, pos as int, e);
            }
            self.objects.insert(pos, (hash, object));
        }
        proof {
            let after = self.objects@;
            assert forall|k: Seq<char>| #[trigger] has_key(after, k) == (has_key(before, k) || k == e.0@) by {}
        }
        assert(self@ =~= old(self)@.insert(e.0@, e.1@));
    }
}

} // verus!
