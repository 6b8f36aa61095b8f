//! Splitting a query string into positioned, lowercase words.
use slice_group_by::StrGroupBy;
use vstd::prelude::*;
use crate::index::string_views;

verus! {

/// The lowercase form of a string.
pub uninterp spec fn lower_of(s: Seq<char>) -> Seq<char>;

/// Whether a character is white space.
pub uninterp spec fn whitespace(c: char) -> bool;

/// Some character of `w` is white space.
pub open spec fn has_whitespace(w: Seq<char>) -> bool {
    exists|i: int| 0 <= i < w.len() && whitespace(#[trigger] w[i])
}

/// `runs` cuts `s` into non-empty maximal runs of characters that agree on
/// being white space.
pub open spec fn is_run_split(s: Seq<char>, runs: Seq<Seq<char>>) -> bool {
    &&& runs.flatten() == s
    &&& forall|i: int| 0 <= i < runs.len() ==> (#[trigger] runs[i]).len() > 0
    &&& forall|i: int, j: int, k: int|
        0 <= i < runs.len() && 0 <= j < runs[i].len() && 0 <= k < runs[i].len()
            ==> whitespace(#[trigger] runs[i][j]) == whitespace(#[trigger] runs[i][k])
    &&& forall|i: int| 0 <= i < runs.len() - 1
        ==> whitespace((#[trigger] runs[i])[0]) != whitespace(runs[i + 1][0])
}

/// The words of positioned tokens.
pub open spec fn token_words(ts: Seq<(usize, String)>) -> Seq<Seq<char>> {
    ts.map_values(|t: (usize, String)| t.1@)
}

/// Relies on str::to_lowercase; its result depends on the characters alone.
#[verifier::external_body]
fn lowercase(s: &str) -> (r: String)
    ensures
        r@ == lower_of(s@),
{
    s.to_lowercase()
}

/// Relies on char::is_whitespace.
#[verifier::external_body]
fn is_whitespace(c: char) -> (r: bool)
    ensures
        r == whitespace(c),
{
    c.is_whitespace()
}

/// Relies on slice_group_by::StrGroupBy::linear_group_by_key keyed by
/// char::is_whitespace, which cuts a string into maximal runs of characters
/// with equal keys, in order.
#[verifier::external_body]
fn whitespace_runs(s: &str) -> (r: Vec<String>)
    ensures
        is_run_split(s@, string_views(r@)),
{
    s.linear_group_by_key(char::is_whitespace).map(|g| g.to_owned()).collect()
}

/// Whether some character of the word is white space.
pub fn contains_whitespace(w: &str) -> (r: bool)
    ensures
        r == has_whitespace(w@),
{
    let n = w.unicode_len();
    let mut i: usize = 0;
    while i < n
        invariant
            n == w@.len(),
            i <= n,
            forall|j: int| 0 <= j < i ==> !whitespace(#[trigger] w@[j]),
        decreases n - i,
    {
        if is_whitespace(w.get_char(i)) {
            return true;
        }
        i = i + 1;
    }
    false
}

/// The lowercase query cut at white space: its words in order, each with its
/// position.
pub fn tokenize(query: &str) -> (r: Vec<(usize, String)>)
    ensures
        forall|i: int| 0 <= i < r.len() ==> (#[trigger] r[i]).0 == i,
        exists|runs: Seq<Seq<char>>|
            is_run_split(lower_of(query@), runs)
                && token_words(r@) == runs.filter(|w: Seq<char>| !has_whitespace(w)),
{
    let lower = lowercase(query);
    let runs = whitespace_runs(lower.as_str());
    let ghost rv = string_views(runs@);
    let mut words: Vec<(usize, String)> = Vec::new();
    let mut k: usize = 0;
    while k < runs.len()
        invariant
            k <= runs.len(),
            rv == string_views(runs@),
            forall|i: int| 0 <= i < words.len() ==> (#[trigger] words[i]).0 == i,
            token_words(words@) == rv.subrange(0, k as int).filter(|w: Seq<char>| !has_whitespace(w)),
        decreases runs.len() - k,
    {
        let ghost before = words@;
        assert(rv.subrange(0, k + 1) =~= rv.subrange(0, k as int).push(rv[k as int]));
        if !contains_whitespace(runs[k].as_str()) {
            let pos = words.len();
            words.push((pos, runs[k].clone()));
            assert(token_words(words@) =~= token_words(before).push(runs[k as int]@));
        } else {
            assert(token_words(words@) =~= token_words(before));
        }
        proof {
            rv.subrange(0, k as int).lemma_filter_push(rv[k as int], |w: Seq<char>| !has_whitespace(w));
        }
        k = k + 1;
    }
    assert(rv.subrange(0, runs.len() as int) =~= rv);
    words
}

} // verus!
