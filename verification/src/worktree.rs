//! The working directory against the staging area: which walked paths
//! `add` stages, and what `status` reports.
use vstd::prelude::*;
use crate::ignore::{ignored_spec, GitIgnore};
use crate::index::Index;
use crate::objects::{encode_spec, object_id, GitObject, ObjectView};
use crate::text::{owned, starts_with_text};

verus! {

/// A walked path with the leading `./` removed, if it has one.
pub open spec fn clean_spec(path: Seq<char>) -> Seq<char> {
    if "./"@.is_prefix_of(path) {
        path.skip("./"@.len() as int)
    } else {
        path
    }
}

/// A walked path with the leading `./` removed, if it has one.
pub fn clean_path(path: &str) -> (r: String)
    ensures
        r@ == clean_spec(path@),
{
    if starts_with_text(path, "./") {
        let n = path.unicode_len();
        let k = "./".unicode_len();
        owned(path.substring_char(k, n))
    } else {
        owned(path)
    }
}

/// The path under which a walked entry is staged: its cleaned path, unless
/// it is left out or is not a regular file.
pub open spec fn add_target_spec(ps: Seq<Seq<char>>, path: Seq<char>, is_file: bool) -> Option<Seq<char>> {
    let c = clean_spec(path);
    if ignored_spec(ps, c) || !is_file {
        None
    } else {
        Some(c)
    }
}

/// The path under which `add` stages the walked entry `path`, if any.
pub fn add_target(ignore: &GitIgnore, path: &str, is_file: bool) -> (r: Option<String>)
    ensures
        match r {
            Some(c) => add_target_spec(ignore@, path@, is_file) == Some(c@),
            None => add_target_spec(ignore@, path@, is_file) is None,
        },
        r matches Some(c) ==> c@ == clean_spec(path@) && is_file && !ignored_spec(ignore@, c@),
        ignored_spec(ignore@, clean_spec(path@)) ==> r is None,
{
    proof {
        lemma_add_respects_ignore(ignore@, path@, is_file);
    }
    let c = clean_path(path);
    if ignore.is_ignored(c.as_str()) || !is_file {
        None
    } else {
        Some(c)
    }
}

/// Law: `add` stages exactly the walked regular files that the ignore rules
/// do not leave out, under their cleaned paths: what it stages is the
/// walked path without its leading `./`, a regular file, and not left out
/// by `GitIgnore::is_ignored`; a walked entry whose cleaned path is left
/// out is never staged.
pub proof fn lemma_add_respects_ignore(ps: Seq<Seq<char>>, path: Seq<char>, is_file: bool)
    ensures
        add_target_spec(ps, path, is_file) matches Some(c) ==> c == clean_spec(path) && is_file
            && !ignored_spec(ps, c),
        ignored_spec(ps, clean_spec(path)) ==> add_target_spec(ps, path, is_file) is None,
        !is_file ==> add_target_spec(ps, path, is_file) is None,
        is_file && !ignored_spec(ps, clean_spec(path)) ==> add_target_spec(ps, path, is_file) == Some(
            clean_spec(path),
        ),
{
}

/// A file staged by `add`: its blob's identifier and record, and whether
/// the staging area changed.
pub struct StagedBlob {
    pub hash: String,
    pub record: String,
    pub changed: bool,
}

/// Stages the file `path` with content `content`: its blob is recorded
/// under the blob's identifier, and the staging area records that
/// identifier for the path unless it holds it already.
pub fn stage_file(index: &mut Index, path: String, content: String) -> (r: StagedBlob)
    requires
        old(index).wf(),
    ensures
        final(index).wf(),
        r.record@ == encode_spec(ObjectView::Blob(content@)),
        r.hash@ == object_id(ObjectView::Blob(content@)),
        r.changed == !(old(index)@.contains_key(path@) && old(index)@[path@] == r.hash@),
        final(index)@ == old(index)@.insert(path@, r.hash@),
{
    let blob = GitObject::Blob(content);
    let record = blob.encode();
    let hash = blob.id();
    let changed = index.stage(path, hash.clone());
    StagedBlob { hash, record, changed }
}

/// What `status` finds of a staged path in the working directory.
pub enum FileState {
    /// The path does not exist.
    Missing,
    /// The path exists but cannot be read as text.
    Unreadable,
    /// The path holds this text.
    Content(String),
}

/// The texts of a walk: each entry's path and whether it is a regular file.
pub open spec fn walk_views(walk: Seq<(String, bool)>) -> Seq<(Seq<char>, bool)> {
    walk.map_values(|e: (String, bool)| (e.0@, e.1))
}

/// The untracked files among the walked entries, in walk order: the cleaned
/// paths of regular files that are not left out and not staged.
pub open spec fn untracked_spec(
    ps: Seq<Seq<char>>,
    staged: Map<Seq<char>, Seq<char>>,
    walk: Seq<(Seq<char>, bool)>,
) -> Seq<Seq<char>>
    decreases walk.len(),
{
    if walk.len() == 0 {
        seq![]
    } else {
        let before = untracked_spec(ps, staged, walk.drop_last());
        let (p, is_file) = walk.last();
        let c = clean_spec(p);
        if !ignored_spec(ps, c) && is_file && !staged.contains_key(c) {
            before.push(c)
        } else {
            before
        }
    }
}

/// The staged paths, in path order, whose file exists, reads as text, and
/// holds content whose blob differs from the staged one.
pub open spec fn modified_spec(listing: Seq<(Seq<char>, Seq<char>)>, states: Seq<FileState>) -> Seq<
    Seq<char>,
>
    decreases listing.len(),
{
    if listing.len() == 0 || states.len() == 0 {
        seq![]
    } else {
        let before = modified_spec(listing.drop_last(), states.drop_last());
        match states.last() {
            FileState::Content(c) => if object_id(ObjectView::Blob(c@)) != listing.last().1 {
                before.push(listing.last().0)
            } else {
                before
            },
            _ => before,
        }
    }
}

/// The staged paths, in path order, whose file is missing.
pub open spec fn deleted_spec(listing: Seq<(Seq<char>, Seq<char>)>, states: Seq<FileState>) -> Seq<
    Seq<char>,
>
    decreases listing.len(),
{
    if listing.len() == 0 || states.len() == 0 {
        seq![]
    } else {
        let before = deleted_spec(listing.drop_last(), states.drop_last());
        match states.last() {
            FileState::Missing => before.push(listing.last().0),
            _ => before,
        }
    }
}

proof fn lemma_status_members(listing: Seq<(Seq<char>, Seq<char>)>, states: Seq<FileState>)
    requires
        listing.len() == states.len(),
    ensures
        forall|p: Seq<char>|
            #[trigger] modified_spec(listing, states).contains(p) ==> exists|j: int|
                0 <= j < listing.len() && listing[j].0 == p && (states[j] matches FileState::Content(
                    c,
                ) && object_id(ObjectView::Blob(c@)) != listing[j].1),
        forall|p: Seq<char>|
            #[trigger] deleted_spec(listing, states).contains(p) ==> exists|j: int|
                0 <= j < listing.len() && listing[j].0 == p && states[j] is Missing,
    decreases listing.len(),
{
    if listing.len() > 0 {
        let l = listing.drop_last();
        let st = states.drop_last();
        lemma_status_members(l, st);
        let n = listing.len() - 1;
        assert forall|p: Seq<char>| #[trigger] modified_spec(listing, states).contains(p) implies exists|j: int|
            0 <= j < listing.len() && listing[j].0 == p && (states[j] matches FileState::Content(c)
                && object_id(ObjectView::Blob(c@)) != listing[j].1) by {
            let before = modified_spec(l, st);
            if before.contains(p) {
                let j = choose|j: int|
                    0 <= j < l.len() && l[j].0 == p && (st[j] matches FileState::Content(c) && object_id(
                        ObjectView::Blob(c@),
                    ) != l[j].1);
                assert(listing[j] == l[j] && states[j] == st[j]);
            } else {
                let x = choose|x: int| 0 <= x < modified_spec(listing, states).len() && modified_spec(listing, states)[x] == p;
                assert(x == before.len());
                assert(listing[n].0 == p);
            }
        }
        assert forall|p: Seq<char>| #[trigger] deleted_spec(listing, states).contains(p) implies exists|j: int|
            0 <= j < listing.len() && listing[j].0 == p && states[j] is Missing by {
            let before = deleted_spec(l, st);
            if before.contains(p) {
                let j = choose|j: int| 0 <= j < l.len() && l[j].0 == p && st[j] is Missing;
                assert(listing[j] == l[j] && states[j] == st[j]);
            } else {
                let x = choose|x: int| 0 <= x < deleted_spec(listing, states).len() && deleted_spec(listing, states)[x] == p;
                assert(states[n] is Missing && listing[n].0 == p);
            }
        }
    }
}

/// Law: a staged file whose content is still what was staged (so that its
/// blob is the staged one) is reported neither modified nor deleted.
pub proof fn lemma_unchanged_not_reported(index: Index, states: Seq<FileState>, i: int)
    requires
        index.wf(),
        states.len() == index.listing().len(),
        0 <= i < states.len(),
        states[i] matches FileState::Content(c) && object_id(ObjectView::Blob(c@)) == index.listing()[i].1,
    ensures
        !modified_spec(index.listing(), states).contains(index.listing()[i].0),
        !deleted_spec(index.listing(), states).contains(index.listing()[i].0),
{
    let l = index.listing();
    index.lemma_listing();
    lemma_status_members(l, states);
    let p = l[i].0;
    if modified_spec(l, states).contains(p) {
        let j = choose|j: int|
            0 <= j < l.len() && l[j].0 == p && (states[j] matches FileState::Content(c) && object_id(
                ObjectView::Blob(c@),
            ) != l[j].1);
        if j != i {
            crate::text::lemma_chars_lt_irreflexive(p);
            if j < i {
                assert(crate::text::chars_lt(l[j].0, l[i].0));
            } else {
                assert(crate::text::chars_lt(l[i].0, l[j].0));
            }
        }
    }
    if deleted_spec(l, states).contains(p) {
        let j = choose|j: int| 0 <= j < l.len() && l[j].0 == p && states[j] is Missing;
        if j != i {
            crate::text::lemma_chars_lt_irreflexive(p);
            if j < i {
                assert(crate::text::chars_lt(l[j].0, l[i].0));
            } else {
                assert(crate::text::chars_lt(l[i].0, l[j].0));
            }
        }
    }
}

/// What `status` reports.
pub struct StatusReport {
    pub untracked: Vec<String>,
    pub modified: Vec<String>,
    pub deleted: Vec<String>,
}

/// The texts of a list of paths.
pub open spec fn path_views(v: Seq<String>) -> Seq<Seq<char>> {
    v.map_values(|s: String| s@)
}

/// Compares the working directory with the staging area. `walk` is every
/// entry under the top directory (path as walked, and whether it is a
/// regular file); `states` says, for each staged path in path order, what
/// the working directory holds there.
pub fn status(index: &Index, ignore: &GitIgnore, walk: &Vec<(String, bool)>, states: &Vec<FileState>) -> (r:
    StatusReport)
    requires
        index.wf(),
        states.len() == index.listing().len(),
    ensures
        path_views(r.untracked@) == untracked_spec(ignore@, index@, walk_views(walk@)),
        path_views(r.modified@) == modified_spec(index.listing(), states@),
        path_views(r.deleted@) == deleted_spec(index.listing(), states@),
{
    let mut untracked: Vec<String> = Vec::new();
    let mut i: usize = 0;
    assert(walk_views(walk@).take(0) =~= Seq::<(Seq<char>, bool)>::empty());
    assert(path_views(untracked@) =~= Seq::<Seq<char>>::empty());
    while i < walk.len()
        invariant
            i <= walk.len(),
            index.wf(),
            path_views(untracked@) == untracked_spec(ignore@, index@, walk_views(walk@).take(i as int)),
        decreases walk.len() - i,
    {
        let ghost w = walk_views(walk@);
        assert(w.take(i + 1).drop_last() =~= w.take(i as int));
        assert(w.take(i + 1).last() == (walk@[i as int].0@, walk@[i as int].1));
        let c = clean_path(walk[i].0.as_str());
        if !ignore.is_ignored(c.as_str()) && walk[i].1 && index.get(c.as_str()).is_none() {
            let ghost before = path_views(untracked@);
            let ghost cv = c@;
            untracked.push(c);
            assert(path_views(untracked@) =~= before.push(cv));
        }
        i = i + 1;
    }
    assert(walk_views(walk@).take(i as int) =~= walk_views(walk@));
    let entries = index.entries();
    let ghost listing = index.listing();
    let mut modified: Vec<String> = Vec::new();
    let mut deleted: Vec<String> = Vec::new();
    let mut j: usize = 0;
    assert(listing.take(0) =~= Seq::<(Seq<char>, Seq<char>)>::empty());
    assert(path_views(modified@) =~= Seq::<Seq<char>>::empty());
    assert(path_views(deleted@) =~= Seq::<Seq<char>>::empty());
    while j < entries.len()
        invariant
            j <= entries.len(),
            entries.len() == states.len(),
            listing == entries@.map_values(|e: (String, String)| (e.0@, e.1@)),
            path_views(modified@) == modified_spec(listing.take(j as int), states@.take(j as int)),
            path_views(deleted@) == deleted_spec(listing.take(j as int), states@.take(j as int)),
        decreases entries.len() - j,
    {
        assert(listing.take(j + 1).drop_last() =~= listing.take(j as int));
        assert(states@.take(j + 1).drop_last() =~= states@.take(j as int));
        assert(listing.take(j + 1).last() == (entries@[j as int].0@, entries@[j as int].1@));
        assert(states@.take(j + 1).last() == states@[j as int]);
        match &states[j] {
            FileState::Content(c) => {
                let blob = GitObject::Blob(c.clone());
                let h = blob.id();
                if h != entries[j].1 {
                    let ghost before = path_views(modified@);
                    let p = entries[j].0.clone();
                    modified.push(p);
                    assert(path_views(modified@) =~= before.push(entries@[j as int].0@));
                }
            },
            FileState::Missing => {
                let ghost before = path_views(deleted@);
                let p = entries[j].0.clone();
                deleted.push(p);
                assert(path_views(deleted@) =~= before.push(entries@[j as int].0@));
            },
            FileState::Unreadable => {},
        }
        j = j + 1;
    }
    assert(listing.take(j as int) =~= listing);
    assert(states@.take(j as int) =~= states@);
    StatusReport { untracked, modified, deleted }
}

/// The lines `"\t" + label + path` for each path, in order.
pub open spec fn listed(label: Seq<char>, ps: Seq<Seq<char>>) -> Seq<char>
    decreases ps.len(),
{
    if ps.len() == 0 {
        seq![]
    } else {
        listed(label, ps.drop_last()) + "\t"@ + label + ps.last() + "\n"@
    }
}

/// The text that `status` prints for a report.
pub open spec fn render_spec(u: Seq<Seq<char>>, m: Seq<Seq<char>>, d: Seq<Seq<char>>) -> Seq<char> {
    let changes = if m.len() > 0 || d.len() > 0 {
        "Changes not staged for commit:\n"@ + listed("modified: "@, m) + listed("deleted:  "@, d)
            + "\n"@
    } else {
        seq![]
    };
    let untracked = if u.len() > 0 {
        "Untracked files:\n"@ + listed(seq![], u) + "\n"@
    } else {
        seq![]
    };
    let clean = if m.len() == 0 && d.len() == 0 && u.len() == 0 {
        "nothing to commit, working tree clean\n"@
    } else {
        seq![]
    };
    changes + untracked + clean
}

/// What `status` prints for a working tree that matches the staging area.
pub open spec fn clean_message() -> Seq<char> {
    "nothing to commit, working tree clean\n"@
}

proof fn lemma_listed_ends(label: Seq<char>, ps: Seq<Seq<char>>)
    requires
        ps.len() > 0,
    ensures
        listed(label, ps).len() > 0,
        listed(label, ps).last() == '\n',
{
    reveal_strlit("\n");
    let l = listed(label, ps);
    let pre = listed(label, ps.drop_last()) + "\t"@ + label + ps.last();
    assert(l == pre + "\n"@);
    assert(l[l.len() - 1] == '\n');
}

/// `x` ends with an empty line.
spec fn ends_blank(x: Seq<char>) -> bool {
    x.len() >= 2 && x[x.len() - 1] == '\n' && x[x.len() - 2] == '\n'
}

proof fn lemma_block_ends_blank(head: Seq<char>, body: Seq<char>)
    requires
        body.len() > 0,
        body.last() == '\n',
    ensures
        ends_blank(head + body + "\n"@),
{
    reveal_strlit("\n");
    let x = head + body + "\n"@;
    assert(x[x.len() - 1] == '\n');
    assert(x[x.len() - 2] == body[body.len() - 1]);
}

/// Law: `status` says the working tree is clean exactly when it lists no
/// file. With nothing modified, deleted or untracked it prints the message
/// of a clean tree and nothing else; otherwise its text ends with an empty
/// line and so does not end with that message.
pub proof fn lemma_clean_report(u: Seq<Seq<char>>, m: Seq<Seq<char>>, d: Seq<Seq<char>>)
    ensures
        u.len() == 0 && m.len() == 0 && d.len() == 0 ==> render_spec(u, m, d) == clean_message(),
        clean_message().is_suffix_of(render_spec(u, m, d)) <==> (u.len() == 0 && m.len() == 0 && d.len()
            == 0),
{
    reveal_strlit("nothing to commit, working tree clean\n");
    let r = render_spec(u, m, d);
    let cm = clean_message();
    if u.len() == 0 && m.len() == 0 && d.len() == 0 {
        assert(r =~= cm);
        assert(cm.is_suffix_of(r)) by {
            assert(r.subrange(r.len() - cm.len(), r.len() as int) =~= cm);
        }
    } else {
        let changes = if m.len() > 0 || d.len() > 0 {
            "Changes not staged for commit:\n"@ + listed("modified: "@, m) + listed("deleted:  "@, d)
                + "\n"@
        } else {
            seq![]
        };
        let untracked = if u.len() > 0 {
            "Untracked files:\n"@ + listed(seq![], u) + "\n"@
        } else {
            seq![]
        };
        assert(r == changes + untracked);
        if u.len() > 0 {
            lemma_listed_ends(seq![], u);
            lemma_block_ends_blank("Untracked files:\n"@, listed(seq![], u));
            assert(r =~= changes + untracked);
            assert(r[r.len() - 1] == untracked[untracked.len() - 1]);
            assert(r[r.len() - 2] == untracked[untracked.len() - 2]);
        } else {
            assert(r =~= changes);
            let lm = listed("modified: "@, m);
            let ld = listed("deleted:  "@, d);
            if d.len() > 0 {
                lemma_listed_ends("deleted:  "@, d);
                lemma_block_ends_blank("Changes not staged for commit:\n"@ + lm, ld);
                assert(changes =~= ("Changes not staged for commit:\n"@ + lm) + ld + "\n"@);
            } else {
                lemma_listed_ends("modified: "@, m);
                assert(ld =~= Seq::<char>::empty());
                lemma_block_ends_blank("Changes not staged for commit:\n"@, lm);
                assert(changes =~= "Changes not staged for commit:\n"@ + lm + "\n"@);
            }
        }
        assert(ends_blank(r));
        if cm.is_suffix_of(r) {
            assert(cm.len() == 38);
            assert(r.subrange(r.len() - cm.len(), r.len() as int) == cm);
            assert(r[r.len() - 2] == r.subrange(r.len() - cm.len(), r.len() as int)[cm.len() - 2]);
            assert(cm[cm.len() - 2] == 'n');
        }
    }
}

fn append_listed(out: &mut String, label: &str, ps: &Vec<String>)
    ensures
        final(out)@ == old(out)@ + listed(label@, path_views(ps@)),
{
    let ghost start = out@;
    let mut i: usize = 0;
    assert(path_views(ps@).take(0) =~= Seq::<Seq<char>>::empty());
    assert(out@ =~= start + listed(label@, path_views(ps@).take(0)));
    while i < ps.len()
        invariant
            i <= ps.len(),
            out@ == start + listed(label@, path_views(ps@).take(i as int)),
        decreases ps.len() - i,
    {
        let ghost v = path_views(ps@);
        assert(v.take(i + 1).drop_last() =~= v.take(i as int));
        assert(v.take(i + 1).last() == ps@[i as int]@);
        out.append("\t");
        out.append(label);
        out.append(ps[i].as_str());
        out.append("\n");
        i = i + 1;
        assert(out@ =~= start + listed(label@, v.take(i as int)));
    }
    assert(path_views(ps@).take(i as int) =~= path_views(ps@));
}

impl StatusReport {
    /// The text that `status` prints.
    pub fn render(&self) -> (r: String)
        ensures
            r@ == render_spec(
                path_views(self.untracked@),
                path_views(self.modified@),
                path_views(self.deleted@),
            ),
            clean_message().is_suffix_of(r@) <==> (self.untracked.len() == 0 && self.modified.len() == 0
                && self.deleted.len() == 0),
    {
        proof {
            lemma_clean_report(
                path_views(self.untracked@),
                path_views(self.modified@),
                path_views(self.deleted@),
            );
        }
        let mut out = String::new();
        let ghost u = path_views(self.untracked@);
        let ghost m = path_views(self.modified@);
        let ghost d = path_views(self.deleted@);
        if self.modified.len() > 0 || self.deleted.len() > 0 {
            out.append("Changes not staged for commit:\n");
            append_listed(&mut out, "modified: ", &self.modified);
            append_listed(&mut out, "deleted:  ", &self.deleted);
            out.append("\n");
        }
        let ghost after_changes = out@;
        if self.untracked.len() > 0 {
            out.append("Untracked files:\n");
            let none = String::new();
            append_listed(&mut out, none.as_str(), &self.untracked);
            out.append("\n");
        }
        let ghost after_untracked = out@;
        if self.modified.len() == 0 && self.deleted.len() == 0 && self.untracked.len() == 0 {
            out.append("nothing to commit, working tree clean\n");
        }
        proof {
            let changes = if m.len() > 0 || d.len() > 0 {
                "Changes not staged for commit:\n"@ + listed("modified: "@, m) + listed(
                    "deleted:  "@,
                    d,
                ) + "\n"@
            } else {
                seq![]
            };
            assert(after_changes =~= changes);
        }
        assert(out@ =~= render_spec(u, m, d));
        out
    }
}

} // verus!
