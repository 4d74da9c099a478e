//! The staging area: which object each tracked path holds.
use vstd::prelude::*;
use crate::assoc::{
    lemma_insert_new, lemma_key_pos, lemma_remove, lemma_replace, search,
    sorted_keys, text_map,
};

verus! {

/// The staging area: a map from path to the identifier of its blob. Its
/// entries are kept in path order.
pub struct Index {
    entries: Vec<(String, String)>,
}

impl View for Index {
    type V = Map<Seq<char>, Seq<char>>;

    closed spec fn view(&self) -> Map<Seq<char>, Seq<char>> {
        text_map(self.entries@)
    }
}

/// The map of `pairs`, where a later pair for a path wins over an earlier one.
pub open spec fn pairs_map(pairs: Seq<(String, String)>) -> Map<Seq<char>, Seq<char>>
    decreases pairs.len(),
{
    if pairs.len() == 0 {
        Map::empty()
    } else {
        pairs_map(pairs.drop_last()).insert(pairs.last().0@, pairs.last().1@)
    }
}

impl Default for Index {
    /// An empty staging area.
    fn default() -> (r: Index)
        ensures
            r.wf(),
            r@ == Map::<Seq<char>, Seq<char>>::empty(),
    {
        Index::new()
    }
}

/// The paths of `s` are pairwise distinct.
pub open spec fn distinct_paths(s: Seq<(String, String)>) -> bool {
    forall|i: int, j: int| 0 <= i < s.len() && 0 <= j < s.len() && i != j ==> s[i].0@ != s[j].0@
}

/// Where no path occurs twice, the order of the pairs does not matter: the
/// map holds exactly the pairs.
pub proof fn lemma_pairs_map_distinct(s: Seq<(String, String)>)
    requires
        distinct_paths(s),
    ensures
        forall|k: Seq<char>| #[trigger] pairs_map(s).contains_key(k) <==> exists|i: int| 0 <= i < s.len() && s[i].0@ == k,
        forall|i: int| 0 <= i < s.len() ==> #[trigger] pairs_map(s)[s[i].0@] == s[i].1@,
    decreases s.len(),
{
    if s.len() > 0 {
        let t = s.drop_last();
        lemma_pairs_map_distinct(t);
        assert forall|k: Seq<char>| #[trigger] pairs_map(s).contains_key(k) <==> exists|i: int| 0 <= i < s.len() && s[i].0@ == k by {
            if pairs_map(t).contains_key(k) {
                let i = choose|i: int| 0 <= i < t.len() && t[i].0@ == k;
                assert(s[i].0@ == k);
            }
            if exists|i: int| 0 <= i < s.len() && s[i].0@ == k {
                let i = choose|i: int| 0 <= i < s.len() && s[i].0@ == k;
                if i < s.len() - 1 {
                    assert(t[i].0@ == k);
                }
            }
        }
        assert forall|i: int| 0 <= i < s.len() implies #[trigger] pairs_map(s)[s[i].0@] == s[i].1@ by {
            assert(pairs_map(s) == pairs_map(t).insert(s.last().0@, s.last().1@));
            if i < s.len() - 1 {
                assert(t[i] == s[i]);
                assert(s[i].0@ != s[s.len() - 1].0@);
                assert(pairs_map(t)[t[i].0@] == t[i].1@);
            }
        }
    }
}

/// Law: reading back what was saved gives the same staging area. Whatever
/// order the saved pairs come back in, rebuilding the staging area from
/// them (as `Index::from_pairs` does) gives the map that was saved, as long
/// as they are the listed entries, each once.
pub proof fn lemma_index_reload(index: Index, saved: Seq<(String, String)>)
    requires
        index.wf(),
        distinct_paths(saved),
        forall|p: (Seq<char>, Seq<char>)|
            (exists|i: int| 0 <= i < saved.len() && #[trigger] saved[i].0@ == p.0 && saved[i].1@ == p.1)
                <==> index.listing().contains(p),
    ensures
        pairs_map(saved) == index@,
{
    lemma_pairs_map_distinct(saved);
    index.lemma_listing();
    let l = index.listing();
    assert forall|k: Seq<char>| #[trigger] pairs_map(saved).contains_key(k) <==> index@.contains_key(k) by {
        if pairs_map(saved).contains_key(k) {
            let i = choose|i: int| 0 <= i < saved.len() && saved[i].0@ == k;
            let p = (saved[i].0@, saved[i].1@);
            assert(l.contains(p));
            let j = choose|j: int| 0 <= j < l.len() && l[j] == p;
            assert(index@.contains_key(l[j].0));
        }
        if index@.contains_key(k) {
            let j = choose|j: int| 0 <= j < l.len() && l[j].0 == k;
            assert(l.contains(l[j]));
            let i = choose|i: int| 0 <= i < saved.len() && #[trigger] saved[i].0@ == l[j].0 && saved[i].1@ == l[j].1;
        }
    }
    assert forall|k: Seq<char>| #[trigger] pairs_map(saved).contains_key(k) implies pairs_map(saved)[k] == index@[k] by {
        let i = choose|i: int| 0 <= i < saved.len() && saved[i].0@ == k;
        let p = (saved[i].0@, saved[i].1@);
        assert(l.contains(p));
        let j = choose|j: int| 0 <= j < l.len() && l[j] == p;
        assert(index@[l[j].0] == l[j].1);
    }
    assert(pairs_map(saved) =~= index@);
}

/// Law: staging a path with the blob it holds already changes nothing, so
/// adding the same file twice reports a change at most once.
pub proof fn lemma_stage_again(staged: Map<Seq<char>, Seq<char>>, path: Seq<char>, hash: Seq<char>)
    ensures
        staged.insert(path, hash).contains_key(path) && staged.insert(path, hash)[path] == hash,
        staged.insert(path, hash).insert(path, hash) == staged.insert(path, hash),
{
    assert(staged.insert(path, hash).insert(path, hash) =~= staged.insert(path, hash));
}

impl Index {
    /// The entries are in strictly increasing path order.
    pub closed spec fn wf(&self) -> bool {
        sorted_keys(self.entries@)
    }

    /// The entries as texts, in increasing path order.
    pub closed spec fn listing(&self) -> Seq<(Seq<char>, Seq<char>)> {
        self.entries@.map_values(|e: (String, String)| (e.0@, e.1@))
    }

    /// The listing holds each staged path once, with its blob, in
    /// increasing path order.
    pub proof fn lemma_listing(&self)
        requires
            self.wf(),
        ensures
            forall|i: int, j: int|
                0 <= i < j < self.listing().len() ==> crate::text::chars_lt(
                    #[trigger] self.listing()[i].0,
                    #[trigger] self.listing()[j].0,
                ),
            forall|i: int|
                0 <= i < self.listing().len() ==> #[trigger] self@.contains_key(self.listing()[i].0)
                    && self@[self.listing()[i].0] == self.listing()[i].1,
            forall|p: Seq<char>|
                #[trigger] self@.contains_key(p) ==> exists|i: int|
                    0 <= i < self.listing().len() && self.listing()[i].0 == p,
    {
        assert forall|i: int| 0 <= i < self.listing().len() implies #[trigger] self@.contains_key(
            self.listing()[i].0,
        ) && self@[self.listing()[i].0] == self.listing()[i].1 by {
            lemma_key_pos(self.entries@, i);
        }
        assert forall|p: Seq<char>| #[trigger] self@.contains_key(p) implies exists|i: int|
            0 <= i < self.listing().len() && self.listing()[i].0 == p by {
            let i = choose|i: int| 0 <= i < self.entries@.len() && #[trigger] self.entries@[i].0@ == p;
            assert(self.listing()[i].0 == p);
        }
    }

    /// An empty staging area.
    pub fn new() -> (r: Index)
        ensures
            r.wf(),
            r@ == Map::<Seq<char>, Seq<char>>::empty(),
    {
        let r = Index { entries: Vec::new() };
        assert(r@ =~= Map::<Seq<char>, Seq<char>>::empty());
        r
    }

    /// The entries in increasing path order, each path once.
    pub fn entries(&self) -> (r: &Vec<(String, String)>)
        requires
            self.wf(),
        ensures
            sorted_keys(r@),
            text_map(r@) == self@,
            r@.map_values(|e: (String, String)| (e.0@, e.1@)) == self.listing(),
    {
        &self.entries
    }

    /// The number of tracked paths.
    pub fn len(&self) -> (r: usize)
        requires
            self.wf(),
        ensures
            r == self@.dom().len(),
    {
        proof {
            self.lemma_dom_len();
        }
        self.entries.len()
    }

    proof fn lemma_dom_len(&self)
        requires
            self.wf(),
        ensures
            self@.dom().finite(),
            self@.dom().len() == self.entries@.len(),
    {
        crate::assoc::lemma_key_set(self.entries@);
        assert(self@.dom() =~= crate::assoc::key_set(self.entries@));
    }

    /// The blob identifier recorded for `path`.
    pub fn get(&self, path: &str) -> (r: Option<&String>)
        requires
            self.wf(),
        ensures
            match r {
                Some(h) => self@.contains_key(path@) && self@[path@] == h@,
                None => !self@.contains_key(path@),
            },
    {
        let (found, pos) = search(&self.entries, path);
        if found {
            proof {
                lemma_key_pos(self.entries@, pos as int);
            }
            Some(&self.entries[pos].1)
        } else {
            None
        }
    }

    /// Records `hash` for `path`, in place of what was recorded before.
    pub fn insert(&mut self, path: String, hash: String)
        requires
            old(self).wf(),
        ensures
            final(self).wf(),
            final(self)@ == old(self)@.insert(path@, hash@),
    {
        let ghost before = self.entries@;
        let (found, pos) = search(&self.entries, path.as_str());
        let ghost e = (path, hash);
        if found {
            proof {
                lemma_replace(before, pos as int, e);
            }
            self.entries.set(pos, (path, hash));
        } else {
            proof {
                lemma_insert_new(before, pos as int, e);
            }
            self.entries.insert(pos, (path, hash));
        }
        proof {
            let after = self.entries@;
            assert forall|k: Seq<char>| #[trigger] text_map(after).contains_key(k) == text_map(
                before,
            ).insert(e.0@, e.1@).contains_key(k) by {}
            assert(text_map(after) =~= text_map(before).insert(e.0@, e.1@));
        }
    }

    /// Forgets `path`.
    pub fn remove(&mut self, path: &str)
        requires
            old(self).wf(),
        ensures
            final(self).wf(),
            final(self)@ == old(self)@.remove(path@),
    {
        let ghost before = self.entries@;
        let (found, pos) = search(&self.entries, path);
        if found {
            proof {
                lemma_remove(before, pos as int);
            }
            self.entries.remove(pos);
            assert(text_map(self.entries@) =~= text_map(before).remove(path@));
        } else {
            assert(text_map(before) =~= text_map(before).remove(path@));
        }
    }

    /// Stages `hash` for `path` unless it is recorded already; says whether
    /// the path was new or its blob changed.
    pub fn stage(&mut self, path: String, hash: String) -> (changed: bool)
        requires
            old(self).wf(),
        ensures
            final(self).wf(),
            changed == !(old(self)@.contains_key(path@) && old(self)@[path@] == hash@),
            final(self)@ == old(self)@.insert(path@, hash@),
    {
        let changed = match self.get(path.as_str()) {
            Some(old_hash) => *old_hash != hash,
            None => true,
        };
        if changed {
            self.insert(path, hash);
        } else {
            assert(self@ =~= self@.insert(path@, hash@));
        }
        changed
    }

    /// The staging area holding `pairs`; where a path occurs twice, the later
    /// pair wins.
    pub fn from_pairs(pairs: Vec<(String, String)>) -> (r: Index)
        ensures
            r.wf(),
            r@ == pairs_map(pairs@),
    {
        let mut r = Index::new();
        let mut i: usize = 0;
        proof {
            assert(pairs@.take(0) =~= Seq::<(String, String)>::empty());
        }
        while i < pairs.len()
            invariant
                r.wf(),
                i <= pairs.len(),
                r@ == pairs_map(pairs@.take(i as int)),
            decreases pairs.len() - i,
        {
            assert(pairs@.take(i + 1).drop_last() =~= pairs@.take(i as int));
            r.insert(pairs[i].0.clone(), pairs[i].1.clone());
            i = i + 1;
        }
        assert(pairs@.take(i as int) =~= pairs@);
        r
    }
}

} // verus!
