//! The difference between a staged file and the working directory, line by
//! line, as `diff` prints it.
use vstd::prelude::*;
use crate::objects::{GitObject, ObjectView};
use crate::store::{GitError, ObjectStore};
use crate::text::{concat, same_text};

verus! {

/// How a line of a difference came about.
#[derive(PartialEq, Eq, Structural, Clone, Copy, Debug)]
pub enum DiffTag {
    Equal,
    Delete,
    Insert,
}

/// The changes, in order, that `similar` finds between the lines of `old`
/// and those of `new`: each with its tag and its text as the crate displays
/// it (the line, with a line end added where it had none).
pub uninterp spec fn line_diff(old: Seq<char>, new: Seq<char>) -> Seq<(DiffTag, Seq<char>)>;

/// Calls `similar::TextDiff::from_lines` and walks `iter_all_changes`,
/// taking each change's tag and its `Display` text. Trusted to return what
/// the crate computes from the two texts alone (named by `line_diff`).
#[verifier::external_body]
fn compute_line_diff(old: &str, new: &str) -> (r: Vec<(DiffTag, String)>)
    ensures
        r@.map_values(|c: (DiffTag, String)| (c.0, c.1@)) == line_diff(old@, new@),
{
    let diff = similar::TextDiff::from_lines(old, new);
    diff.iter_all_changes().map(|change| {
        let tag = match change.tag() {
            similar::ChangeTag::Equal => DiffTag::Equal,
            similar::ChangeTag::Delete => DiffTag::Delete,
            similar::ChangeTag::Insert => DiffTag::Insert,
        };
        (tag, change.to_string())
    }).collect()
}

/// The sign that marks a line of each kind.
pub open spec fn sign_of(t: DiffTag) -> Seq<char> {
    match t {
        DiffTag::Equal => " "@,
        DiffTag::Delete => "-"@,
        DiffTag::Insert => "+"@,
    }
}

/// The changes, each after its sign.
pub open spec fn render_changes(cs: Seq<(DiffTag, Seq<char>)>) -> Seq<char>
    decreases cs.len(),
{
    if cs.len() == 0 {
        seq![]
    } else {
        render_changes(cs.drop_last()) + sign_of(cs.last().0) + cs.last().1
    }
}

/// The text of a difference for `path`: a header naming the path, the
/// changes, each after its sign, and an empty line.
pub open spec fn render_diff_spec(path: Seq<char>, cs: Seq<(DiffTag, Seq<char>)>) -> Seq<char> {
    "diff --git a/"@ + path + " b/"@ + path + "\n"@ + "--- a/"@ + path + "\n"@ + "+++ b/"@ + path
        + "\n"@ + render_changes(cs) + "\n"@
}

/// The text of a difference for `path` with the changes `changes`.
pub fn render_diff(path: &str, changes: &Vec<(DiffTag, String)>) -> (r: String)
    ensures
        r@ == render_diff_spec(path@, changes@.map_values(|c: (DiffTag, String)| (c.0, c.1@))),
{
    let mut out = concat("diff --git a/", path);
    out.append(" b/");
    out.append(path);
    out.append("\n");
    out.append("--- a/");
    out.append(path);
    out.append("\n");
    out.append("+++ b/");
    out.append(path);
    out.append("\n");
    let ghost header = out@;
    let ghost cs = changes@.map_values(|c: (DiffTag, String)| (c.0, c.1@));
    let mut i: usize = 0;
    assert(cs.take(0) =~= Seq::<(DiffTag, Seq<char>)>::empty());
    assert(out@ =~= header + render_changes(cs.take(0)));
    while i < changes.len()
        invariant
            i <= changes.len(),
            cs == changes@.map_values(|c: (DiffTag, String)| (c.0, c.1@)),
            out@ == header + render_changes(cs.take(i as int)),
        decreases changes.len() - i,
    {
        assert(cs.take(i + 1).drop_last() =~= cs.take(i as int));
        assert(cs.take(i + 1).last() == (changes@[i as int].0, changes@[i as int].1@));
        let sign = match changes[i].0 {
            DiffTag::Equal => " ",
            DiffTag::Delete => "-",
            DiffTag::Insert => "+",
        };
        out.append(sign);
        out.append(changes[i].1.as_str());
        i = i + 1;
        assert(out@ =~= header + render_changes(cs.take(i as int)));
    }
    assert(cs.take(i as int) =~= cs);
    out.append("\n");
    assert(out@ =~= render_diff_spec(path@, cs));
    out
}

/// What `diff` prints for the staged path `path` whose file holds `current`
/// and whose staged blob holds `staged`: nothing where they are equal, else
/// a header naming the path, the changes, and an empty line.
pub open spec fn file_diff_spec(path: Seq<char>, staged: Seq<char>, current: Seq<char>) -> Option<Seq<char>> {
    if current == staged {
        None
    } else {
        Some(render_diff_spec(path, line_diff(staged, current)))
    }
}

/// What `diff` prints for the staged path `path` with blob `hash` whose file
/// holds `current`: the blob must be in the store; an object that is not a
/// blob is passed over.
pub open spec fn diff_spec(
    db: Map<Seq<char>, ObjectView>,
    path: Seq<char>,
    hash: Seq<char>,
    current: Seq<char>,
) -> Result<Option<Seq<char>>, GitError> {
    if !db.contains_key(hash) {
        Err(GitError::ObjectNotFound)
    } else {
        match db[hash] {
            ObjectView::Blob(staged) => Ok(file_diff_spec(path, staged, current)),
            _ => Ok(None),
        }
    }
}

/// What `diff` prints for one staged path whose file exists and holds
/// `current`.
pub fn diff_file(store: &ObjectStore, path: &str, hash: &str, current: &str) -> (r: Result<
    Option<String>,
    GitError,
>)
    requires
        store.wf(),
    ensures
        match r {
            Ok(Some(t)) => diff_spec(store@, path@, hash@, current@) == Ok::<
                Option<Seq<char>>,
                GitError,
            >(Some(t@)),
            Ok(None) => diff_spec(store@, path@, hash@, current@) == Ok::<
                Option<Seq<char>>,
                GitError,
            >(None),
            Err(e) => diff_spec(store@, path@, hash@, current@) == Err::<Option<Seq<char>>, GitError>(
                e,
            ),
        },
{
    let staged = match store.get(hash) {
        None => return Err(GitError::ObjectNotFound),
        Some(GitObject::Blob(c)) => c,
        Some(_) => return Ok(None),
    };
    if same_text(current, staged.as_str()) {
        return Ok(None);
    }
    Ok(Some(render_diff(path, &compute_line_diff(staged.as_str(), current))))
}

} // verus!
