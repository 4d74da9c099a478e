//! Association lists keyed by text and kept in the order of `String`'s
//! `Ord`, so that each key occurs once and walking the list visits the keys
//! in that order, as a `BTreeMap<String, _>` does.
use vstd::prelude::*;
use crate::text::{
    chars_lt, lemma_chars_lt_irreflexive, lemma_chars_lt_total,
    lemma_chars_lt_transitive, same_text, text_lt,
};

verus! {

/// The keys of `s` are strictly increasing.
pub open spec fn sorted_keys<V>(s: Seq<(String, V)>) -> bool {
    forall|i: int, j: int| 0 <= i < j < s.len() ==> chars_lt(#[trigger] s[i].0@, #[trigger] s[j].0@)
}

/// Some entry of `s` has the key `k`.
pub open spec fn has_key<V>(s: Seq<(String, V)>, k: Seq<char>) -> bool {
    exists|i: int| 0 <= i < s.len() && #[trigger] s[i].0@ == k
}

/// The position of the entry with key `k`.
pub open spec fn key_pos<V>(s: Seq<(String, V)>, k: Seq<char>) -> int {
    choose|i: int| 0 <= i < s.len() && #[trigger] s[i].0@ == k
}

/// The text map that a list of text pairs stands for.
pub open spec fn text_map(s: Seq<(String, String)>) -> Map<Seq<char>, Seq<char>> {
    Map::new(|k: Seq<char>| has_key(s, k), |k: Seq<char>| s[key_pos(s, k)].1@)
}

/// In a list in key order, the entry at `i` is the one found under its key.
pub proof fn lemma_key_pos<V>(s: Seq<(String, V)>, i: int)
    requires
        sorted_keys(s),
        0 <= i < s.len(),
    ensures
        has_key(s, s[i].0@),
        key_pos(s, s[i].0@) == i,
{
    let k = s[i].0@;
    assert(has_key(s, k));
    let j = key_pos(s, k);
    assert(0 <= j < s.len() && s[j].0@ == k);
    if j != i {
        lemma_chars_lt_irreflexive(k);
        if j < i {
            assert(chars_lt(s[j].0@, s[i].0@));
        } else {
            assert(chars_lt(s[i].0@, s[j].0@));
        }
    }
}

/// Where `k` stands in `s`, or where it would be inserted.
pub fn search<V>(s: &Vec<(String, V)>, k: &str) -> (r: (bool, usize))
    requires
        sorted_keys(s@),
    ensures
        r.1 <= s.len(),
        r.0 == has_key(s@, k@),
        r.0 ==> r.1 < s.len() && s@[r.1 as int].0@ == k@,
        !r.0 ==> forall|i: int| 0 <= i < r.1 ==> chars_lt(#[trigger] s@[i].0@, k@),
        !r.0 ==> forall|i: int| r.1 <= i < s.len() ==> chars_lt(k@, #[trigger] s@[i].0@),
{
    let mut i: usize = 0;
    while i < s.len() && text_lt(s[i].0.as_str(), k)
        invariant
            i <= s.len(),
            sorted_keys(s@),
            forall|j: int| 0 <= j < i ==> chars_lt(#[trigger] s@[j].0@, k@),
        decreases s.len() - i,
    {
        i = i + 1;
    }
    if i < s.len() && same_text(s[i].0.as_str(), k) {
        assert(has_key(s@, k@));
        return (true, i);
    }
    proof {
        if i < s.len() {
            lemma_chars_lt_total(s@[i as int].0@, k@);
            assert forall|j: int| i <= j < s.len() implies chars_lt(k@, #[trigger] s@[j].0@) by {
                if j > i {
                    lemma_chars_lt_transitive(k@, s@[i as int].0@, s@[j].0@);
                }
            }
        }
        if has_key(s@, k@) {
            let j = choose|j: int| 0 <= j < s.len() && #[trigger] s@[j].0@ == k@;
            lemma_chars_lt_irreflexive(k@);
            if j < i {
                assert(chars_lt(s@[j].0@, k@));
            } else {
                assert(chars_lt(k@, s@[j].0@));
            }
        }
    }
    (false, i)
}

/// Inserting a new key at its place keeps the keys sorted and every other
/// entry findable under its key.
pub proof fn lemma_insert_new<V>(s: Seq<(String, V)>, p: int, e: (String, V))
    requires
        sorted_keys(s),
        0 <= p <= s.len(),
        forall|i: int| 0 <= i < p ==> chars_lt(#[trigger] s[i].0@, e.0@),
        forall|i: int| p <= i < s.len() ==> chars_lt(e.0@, #[trigger] s[i].0@),
    ensures
        sorted_keys(s.insert(p, e)),
        has_key(s.insert(p, e), e.0@),
        s.insert(p, e)[key_pos(s.insert(p, e), e.0@)] == e,
        forall|k: Seq<char>|
            k != e.0@ ==> (#[trigger] has_key(s.insert(p, e), k) == has_key(s, k)),
        forall|k: Seq<char>|
            k != e.0@ && has_key(s, k) ==> #[trigger] s.insert(p, e)[key_pos(s.insert(p, e), k)]
                == s[key_pos(s, k)],
{
    let t = s.insert(p, e);
    assert forall|i: int, j: int| 0 <= i < j < t.len() implies chars_lt(
        #[trigger] t[i].0@,
        #[trigger] t[j].0@,
    ) by {
        if j < p {
            assert(t[i] == s[i] && t[j] == s[j]);
        } else if j == p {
            assert(t[i] == s[i]);
        } else if i < p {
            assert(t[i] == s[i] && t[j] == s[j - 1]);
            lemma_chars_lt_transitive(s[i].0@, e.0@, s[j - 1].0@);
        } else if i == p {
            assert(t[j] == s[j - 1]);
        } else {
            assert(t[i] == s[i - 1] && t[j] == s[j - 1]);
        }
    }
    assert(t[p] == e);
    lemma_key_pos(t, p);
    assert forall|k: Seq<char>| k != e.0@ implies (#[trigger] has_key(t, k) == has_key(s, k)) by {
        if has_key(s, k) {
            let i = choose|i: int| 0 <= i < s.len() && #[trigger] s[i].0@ == k;
            if i < p {
                assert(t[i] == s[i]);
            } else {
                assert(t[i + 1] == s[i]);
            }
        }
        if has_key(t, k) {
            let i = choose|i: int| 0 <= i < t.len() && #[trigger] t[i].0@ == k;
            if i < p {
                assert(t[i] == s[i]);
            } else if i > p {
                assert(t[i] == s[i - 1]);
            }
        }
    }
    assert forall|k: Seq<char>| k != e.0@ && has_key(s, k) implies #[trigger] t[key_pos(t, k)]
        == s[key_pos(s, k)] by {
        let i = key_pos(s, k);
        lemma_key_pos(s, i);
        if i < p {
            assert(t[i] == s[i]);
            lemma_key_pos(t, i);
        } else {
            assert(t[i + 1] == s[i]);
            lemma_key_pos(t, i + 1);
        }
    }
}

/// Replacing the entry at a key's place by one with the same key keeps the
/// keys sorted and every other entry findable under its key.
pub proof fn lemma_replace<V>(s: Seq<(String, V)>, p: int, e: (String, V))
    requires
        sorted_keys(s),
        0 <= p < s.len(),
        s[p].0@ == e.0@,
    ensures
        sorted_keys(s.update(p, e)),
        has_key(s.update(p, e), e.0@),
        s.update(p, e)[key_pos(s.update(p, e), e.0@)] == e,
        forall|k: Seq<char>| #[trigger] has_key(s.update(p, e), k) == has_key(s, k),
        forall|k: Seq<char>|
            k != e.0@ && has_key(s, k) ==> #[trigger] s.update(p, e)[key_pos(s.update(p, e), k)]
                == s[key_pos(s, k)],
{
    let t = s.update(p, e);
    assert forall|i: int, j: int| 0 <= i < j < t.len() implies chars_lt(
        #[trigger] t[i].0@,
        #[trigger] t[j].0@,
    ) by {
        assert(t[i].0@ == s[i].0@);
        assert(t[j].0@ == s[j].0@);
    }
    lemma_key_pos(t, p);
    assert forall|k: Seq<char>| #[trigger] has_key(t, k) == has_key(s, k) by {
        if has_key(s, k) {
            let i = choose|i: int| 0 <= i < s.len() && #[trigger] s[i].0@ == k;
            assert(t[i].0@ == s[i].0@);
        }
        if has_key(t, k) {
            let i = choose|i: int| 0 <= i < t.len() && #[trigger] t[i].0@ == k;
            assert(t[i].0@ == s[i].0@);
        }
    }
    assert forall|k: Seq<char>| k != e.0@ && has_key(s, k) implies #[trigger] t[key_pos(t, k)]
        == s[key_pos(s, k)] by {
        let i = key_pos(s, k);
        lemma_key_pos(s, i);
        assert(i != p);
        assert(t[i] == s[i]);
        lemma_key_pos(t, i);
    }
}

/// Removing the entry at a key's place keeps the keys sorted and every other
/// entry findable under its key.
pub proof fn lemma_remove<V>(s: Seq<(String, V)>, p: int)
    requires
        sorted_keys(s),
        0 <= p < s.len(),
    ensures
        sorted_keys(s.remove(p)),
        !has_key(s.remove(p), s[p].0@),
        forall|k: Seq<char>|
            k != s[p].0@ ==> (#[trigger] has_key(s.remove(p), k) == has_key(s, k)),
        forall|k: Seq<char>|
            k != s[p].0@ && has_key(s, k) ==> #[trigger] s.remove(p)[key_pos(s.remove(p), k)]
                == s[key_pos(s, k)],
{
    let t = s.remove(p);
    assert forall|i: int, j: int| 0 <= i < j < t.len() implies chars_lt(
        #[trigger] t[i].0@,
        #[trigger] t[j].0@,
    ) by {
        if j < p {
            assert(t[i] == s[i] && t[j] == s[j]);
        } else if i < p {
            assert(t[i] == s[i] && t[j] == s[j + 1]);
        } else {
            assert(t[i] == s[i + 1] && t[j] == s[j + 1]);
        }
    }
    if has_key(t, s[p].0@) {
        let i = choose|i: int| 0 <= i < t.len() && #[trigger] t[i].0@ == s[p].0@;
        lemma_chars_lt_irreflexive(s[p].0@);
        if i < p {
            assert(t[i] == s[i]);
        } else {
            assert(t[i] == s[i + 1]);
        }
    }
    assert forall|k: Seq<char>| k != s[p].0@ implies (#[trigger] has_key(t, k) == has_key(s, k)) by {
        if has_key(s, k) {
            let i = choose|i: int| 0 <= i < s.len() && #[trigger] s[i].0@ == k;
            if i < p {
                assert(t[i] == s[i]);
            } else {
                assert(i != p);
                assert(t[i - 1] == s[i]);
            }
        }
        if has_key(t, k) {
            let i = choose|i: int| 0 <= i < t.len() && #[trigger] t[i].0@ == k;
            if i < p {
                assert(t[i] == s[i]);
            } else {
                assert(t[i] == s[i + 1]);
            }
        }
    }
    assert forall|k: Seq<char>| k != s[p].0@ && has_key(s, k) implies #[trigger] t[key_pos(t, k)]
        == s[key_pos(s, k)] by {
        let i = key_pos(s, k);
        lemma_key_pos(s, i);
        if i < p {
            assert(t[i] == s[i]);
            lemma_key_pos(t, i);
        } else {
            assert(t[i - 1] == s[i]);
            lemma_key_pos(t, i - 1);
        }
    }
}

/// The keys of `s`.
pub open spec fn key_set<V>(s: Seq<(String, V)>) -> Set<Seq<char>> {
    Set::new(|k: Seq<char>| has_key(s, k))
}

/// A list in key order holds as many keys as entries.
pub proof fn lemma_key_set<V>(s: Seq<(String, V)>)
    requires
        sorted_keys(s),
    ensures
        key_set(s).finite(),
        key_set(s).len() == s.len(),
{
    let keys = s.map_values(|e: (String, V)| e.0@);
    assert forall|i: int, j: int| 0 <= i < keys.len() && 0 <= j < keys.len() && i != j implies keys[i]
        != keys[j] by {
        lemma_chars_lt_irreflexive(s[i].0@);
        if i < j {
            assert(chars_lt(s[i].0@, s[j].0@));
        } else {
            assert(chars_lt(s[j].0@, s[i].0@));
        }
    }
    assert(keys.no_duplicates());
    keys.unique_seq_to_set();
    assert forall|k: Seq<char>| key_set(s).contains(k) <==> keys.to_set().contains(k) by {
        if has_key(s, k) {
            let i = choose|i: int| 0 <= i < s.len() && #[trigger] s[i].0@ == k;
            assert(keys[i] == k);
        }
        if keys.to_set().contains(k) {
            let i = choose|i: int| 0 <= i < keys.len() && keys[i] == k;
            assert(s[i].0@ == k);
        }
    }
    assert(key_set(s) =~= keys.to_set());
}

} // verus!
