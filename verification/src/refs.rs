//! `HEAD`, branch references and new commits.
use vstd::prelude::*;
use crate::objects::{texts, Commit, CommitView};
use crate::text::{concat, owned, starts_with_text, trim_spec, trim_text};

verus! {

/// What `HEAD` points at.
#[derive(PartialEq, Eq, Debug)]
pub enum HeadRef {
    /// A branch: the path of its reference, relative to the repository
    /// directory (such as `refs/heads/master`).
    Symbolic(String),
    /// A commit identifier.
    Detached(String),
}

/// What `HEAD` points at, as a flag for a branch and a text.
pub open spec fn head_spec(content: Seq<char>) -> (bool, Seq<char>) {
    let t = trim_spec(content);
    if "ref: "@.is_prefix_of(t) {
        (true, t.skip("ref: "@.len() as int))
    } else {
        (false, t)
    }
}

impl HeadRef {
    /// Whether this names a branch, and the text it holds.
    pub open spec fn spec_parts(self) -> (bool, Seq<char>) {
        match self {
            HeadRef::Symbolic(p) => (true, p@),
            HeadRef::Detached(h) => (false, h@),
        }
    }
}

/// Reads the content of `HEAD`: trimmed, a `ref: ` prefix names a branch
/// reference, anything else is a commit identifier.
pub fn parse_head(content: &str) -> (r: HeadRef)
    ensures
        r.spec_parts() == head_spec(content@),
{
    let t = trim_text(content);
    if starts_with_text(t.as_str(), "ref: ") {
        let n = t.as_str().unicode_len();
        let k = "ref: ".unicode_len();
        HeadRef::Symbolic(owned(t.as_str().substring_char(k, n)))
    } else {
        HeadRef::Detached(t)
    }
}

/// The commit that `HEAD` names, given the content of the branch reference
/// it points at (none where that file does not exist).
pub open spec fn head_commit_spec(head: (bool, Seq<char>), reference: Option<Seq<char>>) -> Option<
    Seq<char>,
> {
    if head.0 {
        match reference {
            Some(c) => Some(trim_spec(c)),
            None => None,
        }
    } else {
        Some(head.1)
    }
}

/// The current commit: for a branch, the trimmed content of its reference,
/// if the reference exists; for a detached `HEAD`, its identifier.
pub fn head_commit(head: &HeadRef, reference: Option<String>) -> (r: Option<String>)
    ensures
        match r {
            Some(h) => head_commit_spec(
                head.spec_parts(),
                match reference {
                    Some(c) => Some(c@),
                    None => None,
                },
            ) == Some(h@),
            None => head_commit_spec(
                head.spec_parts(),
                match reference {
                    Some(c) => Some(c@),
                    None => None,
                },
            ) is None,
        },
{
    match head {
        HeadRef::Symbolic(_) => match reference {
            Some(c) => Some(trim_text(c.as_str())),
            None => None,
        },
        HeadRef::Detached(h) => Some(h.clone()),
    }
}

/// Law: an identifier without surrounding white space that is written
/// where `HEAD` leads reads back as the current commit: written to the
/// reference of the branch that `HEAD` names; or, where `HEAD` is detached,
/// written to `HEAD` itself (the identifier not beginning with `ref: `).
pub proof fn lemma_head_round_trip(head: Seq<char>, h: Seq<char>)
    requires
        trim_spec(h) == h,
    ensures
        head_spec(head).0 ==> head_commit_spec(head_spec(head), Some(h)) == Some(h),
        !"ref: "@.is_prefix_of(h) ==> !head_spec(h).0 && head_commit_spec(head_spec(h), None) == Some(h),
{
}

/// The content of `HEAD` that points at the branch `name`.
pub fn head_for_branch(name: &str) -> (r: String)
    ensures
        r@ == "ref: refs/heads/"@ + name@ + "\n"@,
{
    let mut r = concat("ref: refs/heads/", name);
    r.append("\n");
    r
}

/// The content of `HEAD` in a new repository.
pub fn initial_head() -> (r: String)
    ensures
        r@ == "ref: refs/heads/master\n"@,
{
    owned("ref: refs/heads/master\n")
}

/// The author that commits record.
pub open spec fn author_spec() -> Seq<char> {
    "User <user@example.com>"@
}

/// A new commit of the tree `tree` on top of `parent` (none for the first
/// commit), with the fixed author.
pub fn new_commit(tree: String, parent: Option<String>, message: String, timestamp: u64) -> (r: Commit)
    ensures
        r@ == (CommitView {
            tree: tree@,
            parents: match parent {
                Some(p) => seq![p@],
                None => seq![],
            },
            author: author_spec(),
            message: message@,
            timestamp,
        }),
{
    let mut parents: Vec<String> = Vec::new();
    match parent {
        Some(p) => parents.push(p),
        None => {},
    }
    let r = Commit { tree, parents, author: owned("User <user@example.com>"), message, timestamp };
    assert(texts(r.parents@) =~= match parent {
        Some(p) => seq![p@],
        None => Seq::<Seq<char>>::empty(),
    });
    r
}

} // verus!
