//! Which paths `add` and `status` leave alone: the repository directory
//! itself and what the patterns of `.gitignore` name.
use vstd::prelude::*;
use crate::text::{
    chars_of, concat, contains_seq, contains_text, ends_with_char, lines_spec, split_lines,
    starts_with_text, trim_spec, trim_text,
};

verus! {

#[verifier::external_type_specification]
#[verifier::external_body]
pub struct ExPattern(glob::Pattern);

/// Whether `glob::Pattern::new` accepts `pattern`.
pub uninterp spec fn glob_valid(pattern: Seq<char>) -> bool;

/// Whether the pattern compiled from `pattern` matches `path`, as
/// `glob::Pattern::matches` decides.
pub uninterp spec fn glob_matches(pattern: Seq<char>, path: Seq<char>) -> bool;

/// A glob pattern with the text it was compiled from.
pub struct GlobPattern {
    source: String,
    compiled: glob::Pattern,
}

impl View for GlobPattern {
    type V = Seq<char>;

    closed spec fn view(&self) -> Seq<char> {
        self.source@
    }
}

/// Calls `glob::Pattern::new`. Trusted to succeed exactly when the pattern
/// is valid (named by `glob_valid`); the pattern keeps its text, which is
/// what `Pattern::as_str` gives back.
#[verifier::external_body]
fn compile_pattern(text: &str) -> (r: Option<GlobPattern>)
    ensures
        r is Some == glob_valid(text@),
        r matches Some(p) ==> p@ == text@,
{
    match glob::Pattern::new(text) {
        Ok(p) => Some(GlobPattern { source: text.to_string(), compiled: p }),
        Err(_) => None,
    }
}

/// Calls `glob::Pattern::matches`. Trusted to answer as a function of the
/// pattern's text and the path alone (named by `glob_matches`): a pattern
/// is only ever compiled from its text, and compiling is deterministic.
#[verifier::external_body]
fn pattern_matches(pattern: &GlobPattern, path: &str) -> (r: bool)
    ensures
        r == glob_matches(pattern@, path@),
{
    pattern.compiled.matches(path)
}

/// The pattern that a line of `.gitignore` gives: the trimmed line, with
/// `*` added to one that ends with `/`; none for a blank line or a comment.
pub open spec fn line_pattern(line: Seq<char>) -> Option<Seq<char>> {
    let t = trim_spec(line);
    if t.len() == 0 || t[0] == '#' {
        None
    } else if t.last() == '/' {
        Some(t + seq!['*'])
    } else {
        Some(t)
    }
}

/// The pattern that a line of `.gitignore` gives, if any: the trimmed
/// line, with `*` added to one that ends with `/`; none for a blank line or
/// a comment.
pub fn line_pattern_of(line: &str) -> (r: Option<String>)
    ensures
        match r {
            Some(p) => line_pattern(line@) == Some(p@),
            None => line_pattern(line@) is None,
        },
{
    let t = trim_text(line);
    let cs = chars_of(t.as_str());
    if cs.len() == 0 || cs[0] == '#' {
        return None;
    }
    proof {
        reveal_strlit("*");
    }
    if ends_with_char(t.as_str(), '/') {
        Some(concat(t.as_str(), "*"))
    } else {
        Some(t)
    }
}

/// Whether a pattern leaves out `path`, given whether the glob matched:
/// it does where the glob matched, where the path is the pattern, and where
/// the path lies under the pattern followed by `/`.
pub open spec fn pattern_hit_spec(matched: bool, pattern: Seq<char>, path: Seq<char>) -> bool {
    matched || (pattern + "/"@).is_prefix_of(path) || path == pattern
}

/// Whether a pattern leaves out `path`, given whether its glob matched.
pub fn pattern_hit(matched: bool, pattern: &str, path: &str) -> (r: bool)
    ensures
        r == pattern_hit_spec(matched, pattern@, path@),
{
    if matched {
        return true;
    }
    let under = concat(pattern, "/");
    starts_with_text(path, under.as_str()) || crate::text::same_text(path, pattern)
}

/// The valid patterns that `lines` give, in order.
pub open spec fn patterns_of(lines: Seq<Seq<char>>) -> Seq<Seq<char>>
    decreases lines.len(),
{
    if lines.len() == 0 {
        seq![]
    } else {
        let before = patterns_of(lines.drop_last());
        match line_pattern(lines.last()) {
            Some(p) => if glob_valid(p) {
                before.push(p)
            } else {
                before
            },
            None => before,
        }
    }
}

/// Whether the patterns `ps` leave out `path`: any path that begins with
/// `.git` or holds `/.git`, and any path that a pattern matches, that equals
/// a pattern, or that lies under a pattern followed by `/`.
pub open spec fn ignored_spec(ps: Seq<Seq<char>>, path: Seq<char>) -> bool {
    ||| ".git"@.is_prefix_of(path)
    ||| contains_seq(path, "/.git"@)
    ||| exists|i: int|
        0 <= i < ps.len() && (glob_matches(#[trigger] ps[i], path) || (ps[i] + "/"@).is_prefix_of(
            path,
        ) || path == ps[i])
}

/// Law: the repository's own directory is always left out, whatever the
/// patterns: any path that begins with `.git` or holds `/.git`.
pub proof fn lemma_repository_dir_ignored(ps: Seq<Seq<char>>, path: Seq<char>)
    requires
        ".git"@.is_prefix_of(path) || contains_seq(path, "/.git"@),
    ensures
        ignored_spec(ps, path),
{
}

/// Law: a path equal to a pattern, or under it, is left out.
pub proof fn lemma_pattern_dir_ignored(ps: Seq<Seq<char>>, i: int, path: Seq<char>)
    requires
        0 <= i < ps.len(),
        path == ps[i] || (ps[i] + "/"@).is_prefix_of(path),
    ensures
        ignored_spec(ps, path),
{
    assert(glob_matches(ps[i], path) || (ps[i] + "/"@).is_prefix_of(path) || path == ps[i]);
}

/// The patterns of a `.gitignore` file.
pub struct GitIgnore {
    patterns: Vec<GlobPattern>,
}

impl View for GitIgnore {
    type V = Seq<Seq<char>>;

    /// The texts of the patterns, in file order.
    closed spec fn view(&self) -> Seq<Seq<char>> {
        self.patterns@.map_values(|p: GlobPattern| p@)
    }
}

impl GitIgnore {
    /// The patterns of a `.gitignore` file whose content is `content` (pass
    /// the empty text where the file cannot be read): one per line that is
    /// neither blank nor a comment, skipping those that are not valid glob
    /// patterns.
    pub fn new(content: &str) -> (r: GitIgnore)
        ensures
            r@ == patterns_of(lines_spec(content@)),
    {
        let lines = split_lines(content);
        let ghost lv = lines@.map_values(|l: String| l@);
        let mut patterns: Vec<GlobPattern> = Vec::new();
        let mut i: usize = 0;
        assert(lv.take(0) =~= Seq::<Seq<char>>::empty());
        assert(patterns@.map_values(|p: GlobPattern| p@) =~= Seq::<Seq<char>>::empty());
        while i < lines.len()
            invariant
                i <= lines.len(),
                lv == lines@.map_values(|l: String| l@),
                patterns@.map_values(|p: GlobPattern| p@) == patterns_of(lv.take(i as int)),
            decreases lines.len() - i,
        {
            assert(lv.take(i + 1).drop_last() =~= lv.take(i as int));
            assert(lv.take(i + 1).last() == lines@[i as int]@);
            match line_pattern_of(lines[i].as_str()) {
                Some(candidate) => match compile_pattern(candidate.as_str()) {
                    Some(p) => {
                        let ghost before = patterns@.map_values(|p: GlobPattern| p@);
                        let ghost pv = p@;
                        patterns.push(p);
                        assert(patterns@.map_values(|p: GlobPattern| p@) =~= before.push(pv));
                    },
                    None => {},
                },
                None => {},
            }
            i = i + 1;
        }
        assert(lv.take(i as int) =~= lv);
        GitIgnore { patterns }
    }

    /// Whether `path` (relative to the top directory, without a leading
    /// `./`) is left out.
    pub fn is_ignored(&self, path: &str) -> (r: bool)
        ensures
            r == ignored_spec(self@, path@),
    {
        if starts_with_text(path, ".git") || contains_text(path, "/.git") {
            return true;
        }
        let ghost ps = self@;
        let mut i: usize = 0;
        while i < self.patterns.len()
            invariant
                i <= self.patterns.len(),
                ps == self@,
                !".git"@.is_prefix_of(path@),
                !contains_seq(path@, "/.git"@),
                forall|k: int|
                    0 <= k < i ==> !(glob_matches(#[trigger] ps[k], path@) || (ps[k]
                        + "/"@).is_prefix_of(path@) || path@ == ps[k]),
            decreases self.patterns.len() - i,
        {
            let p = &self.patterns[i];
            assert(ps[i as int] == p@);
            if pattern_hit(pattern_matches(p, path), p.source.as_str(), path) {
                return true;
            }
            i = i + 1;
        }
        false
    }
}

} // verus!
