//! The objects of a repository (blobs, trees and commits), their JSON
//! records and their identifiers.
use vstd::prelude::*;
use crate::hashing::{content_hash, hash_content};
use crate::json::{decimal, decimal_of, json_string, json_string_of};
use crate::text::owned;

verus! {

/// One entry of a tree: a file (mode `100644`) or a directory (mode `040000`).
pub struct TreeEntry {
    pub mode: String,
    pub name: String,
    pub hash: String,
}

/// A snapshot of the root tree with its history.
pub struct Commit {
    pub tree: String,
    pub parents: Vec<String>,
    pub author: String,
    pub message: String,
    pub timestamp: u64,
}

/// An object of the store.
pub enum GitObject {
    Blob(String),
    Tree(Vec<TreeEntry>),
    Commit(Commit),
}

/// A tree entry as its three texts.
pub struct EntryView {
    pub mode: Seq<char>,
    pub name: Seq<char>,
    pub hash: Seq<char>,
}

/// A commit as its texts and its time stamp.
pub struct CommitView {
    pub tree: Seq<char>,
    pub parents: Seq<Seq<char>>,
    pub author: Seq<char>,
    pub message: Seq<char>,
    pub timestamp: u64,
}

/// An object as texts.
pub enum ObjectView {
    Blob(Seq<char>),
    Tree(Seq<EntryView>),
    Commit(CommitView),
}

impl View for TreeEntry {
    type V = EntryView;

    open spec fn view(&self) -> EntryView {
        EntryView { mode: self.mode@, name: self.name@, hash: self.hash@ }
    }
}

/// The texts of a list of strings.
pub open spec fn texts(v: Seq<String>) -> Seq<Seq<char>> {
    v.map_values(|s: String| s@)
}

/// The views of a list of tree entries.
pub open spec fn entry_views(v: Seq<TreeEntry>) -> Seq<EntryView> {
    v.map_values(|e: TreeEntry| e@)
}

impl View for Commit {
    type V = CommitView;

    open spec fn view(&self) -> CommitView {
        CommitView {
            tree: self.tree@,
            parents: texts(self.parents@),
            author: self.author@,
            message: self.message@,
            timestamp: self.timestamp,
        }
    }
}

impl View for GitObject {
    type V = ObjectView;

    open spec fn view(&self) -> ObjectView {
        match self {
            GitObject::Blob(c) => ObjectView::Blob(c@),
            GitObject::Tree(es) => ObjectView::Tree(entry_views(es@)),
            GitObject::Commit(c) => ObjectView::Commit(c@),
        }
    }
}

/// The mode of a file entry.
pub open spec fn file_mode() -> Seq<char> {
    "100644"@
}

/// The mode of a directory entry.
pub open spec fn dir_mode() -> Seq<char> {
    "040000"@
}

/// The JSON record of a tree entry: its three fields in order.
pub open spec fn encode_entry(e: EntryView) -> Seq<char> {
    "{\"mode\":"@ + json_string(e.mode) + ",\"name\":"@ + json_string(e.name) + ",\"hash\":"@
        + json_string(e.hash) + "}"@
}

/// The records of `es`, separated by commas.
pub open spec fn join_entries(es: Seq<EntryView>) -> Seq<char>
    decreases es.len(),
{
    if es.len() == 0 {
        seq![]
    } else if es.len() == 1 {
        encode_entry(es[0])
    } else {
        join_entries(es.drop_last()) + ","@ + encode_entry(es.last())
    }
}

/// The JSON strings of `ps`, separated by commas.
pub open spec fn join_strings(ps: Seq<Seq<char>>) -> Seq<char>
    decreases ps.len(),
{
    if ps.len() == 0 {
        seq![]
    } else if ps.len() == 1 {
        json_string(ps[0])
    } else {
        join_strings(ps.drop_last()) + ","@ + json_string(ps.last())
    }
}

/// The JSON record of a commit: its five fields in order.
pub open spec fn encode_commit(c: CommitView) -> Seq<char> {
    "{\"tree\":"@ + json_string(c.tree) + ",\"parents\":["@ + join_strings(c.parents)
        + "],\"author\":"@ + json_string(c.author) + ",\"message\":"@ + json_string(c.message)
        + ",\"timestamp\":"@ + decimal(c.timestamp as nat) + "}"@
}

/// The JSON record of an object, tagged with its kind, as `serde_json`
/// writes the enum.
pub open spec fn encode_spec(o: ObjectView) -> Seq<char> {
    match o {
        ObjectView::Blob(c) => "{\"Blob\":"@ + json_string(c) + "}"@,
        ObjectView::Tree(es) => "{\"Tree\":["@ + join_entries(es) + "]}"@,
        ObjectView::Commit(c) => "{\"Commit\":"@ + encode_commit(c) + "}"@,
    }
}

/// The identifier of an object: the hash of its record.
pub open spec fn object_id(o: ObjectView) -> Seq<char> {
    content_hash(encode_spec(o))
}

fn encode_entry_exec(e: &TreeEntry) -> (r: String)
    ensures
        r@ == encode_entry(e@),
{
    let mut r = owned("{\"mode\":");
    r.append(json_string_of(e.mode.as_str()).as_str());
    r.append(",\"name\":");
    r.append(json_string_of(e.name.as_str()).as_str());
    r.append(",\"hash\":");
    r.append(json_string_of(e.hash.as_str()).as_str());
    r.append("}");
    r
}

fn encode_entries(es: &Vec<TreeEntry>) -> (r: String)
    ensures
        r@ == join_entries(entry_views(es@)),
{
    let mut r = String::new();
    let mut i: usize = 0;
    while i < es.len()
        invariant
            i <= es.len(),
            r@ == join_entries(entry_views(es@).take(i as int)),
        decreases es.len() - i,
    {
        let ghost v = entry_views(es@);
        assert(v.take(i + 1).drop_last() =~= v.take(i as int));
        if i > 0 {
            r.append(",");
        }
        r.append(encode_entry_exec(&es[i]).as_str());
        i = i + 1;
        proof {
            if i == 1 {
                assert(r@ =~= join_entries(v.take(i as int)));
            }
        }
    }
    assert(entry_views(es@).take(i as int) =~= entry_views(es@));
    r
}

fn encode_strings(ps: &Vec<String>) -> (r: String)
    ensures
        r@ == join_strings(texts(ps@)),
{
    let mut r = String::new();
    let mut i: usize = 0;
    while i < ps.len()
        invariant
            i <= ps.len(),
            r@ == join_strings(texts(ps@).take(i as int)),
        decreases ps.len() - i,
    {
        let ghost v = texts(ps@);
        assert(v.take(i + 1).drop_last() =~= v.take(i as int));
        if i > 0 {
            r.append(",");
        }
        r.append(json_string_of(ps[i].as_str()).as_str());
        i = i + 1;
        proof {
            if i == 1 {
                assert(r@ =~= join_strings(v.take(i as int)));
            }
        }
    }
    assert(texts(ps@).take(i as int) =~= texts(ps@));
    r
}

impl GitObject {
    /// The JSON record of the object, as it is stored.
    pub fn encode(&self) -> (r: String)
        ensures
            r@ == encode_spec(self@),
    {
        match self {
            GitObject::Blob(c) => {
                let mut r = owned("{\"Blob\":");
                r.append(json_string_of(c.as_str()).as_str());
                r.append("}");
                r
            },
            GitObject::Tree(es) => {
                let mut r = owned("{\"Tree\":[");
                r.append(encode_entries(es).as_str());
                r.append("]}");
                r
            },
            GitObject::Commit(c) => {
                let mut r = owned("{\"Commit\":{\"tree\":");
                r.append(json_string_of(c.tree.as_str()).as_str());
                r.append(",\"parents\":[");
                r.append(encode_strings(&c.parents).as_str());
                r.append("],\"author\":");
                r.append(json_string_of(c.author.as_str()).as_str());
                r.append(",\"message\":");
                r.append(json_string_of(c.message.as_str()).as_str());
                r.append(",\"timestamp\":");
                r.append(decimal_of(c.timestamp).as_str());
                r.append("}}");
                proof {
                    reveal_strlit("{\"Commit\":{\"tree\":");
                    reveal_strlit("{\"Commit\":");
                    reveal_strlit("{\"tree\":");
                    reveal_strlit("}}");
                    reveal_strlit("}");
                }
                assert(r@ =~= encode_spec(self@));
                r
            },
        }
    }

    /// The identifier of the object: the hash of its record.
    pub fn id(&self) -> (r: String)
        ensures
            r@ == object_id(self@),
            r@.len() == 64,
    {
        hash_content(self.encode().as_str())
    }
}

/// Where an object is stored: the first two bytes of its identifier name
/// the directory, the rest name the file in it.
pub fn object_location(hash: &str) -> (r: (String, String))
    requires
        vstd::utf8::is_char_boundary(vstd::utf8::encode_utf8(hash@), 2),
    ensures
        vstd::utf8::encode_utf8(r.0@) == vstd::utf8::encode_utf8(hash@).subrange(0, 2),
        vstd::utf8::encode_utf8(r.1@) == vstd::utf8::encode_utf8(hash@).subrange(
            2,
            vstd::utf8::encode_utf8(hash@).len() as int,
        ),
{
    let (prefix, suffix) = hash.split_at(2);
    (prefix.to_owned(), suffix.to_owned())
}

} // verus!
