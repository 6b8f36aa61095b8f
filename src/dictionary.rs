//! The term dictionary, an fst set searched with automata.
use fst::{Automaton, IntoStreamer};
use vstd::prelude::*;
use crate::index::term_bytes;

verus! {

#[verifier::external_type_specification]
#[verifier::external_body]
#[verifier::reject_recursive_types(D)]
pub struct ExFstSet<D>(fst::Set<D>);

/// The terms that a dictionary holds.
pub uninterp spec fn dictionary_terms(set: fst::Set<Vec<u8>>) -> Set<Seq<u8>>;

/// Whether a term lies within `distance` edits of `word`.
pub uninterp spec fn levenshtein_accepts(word: Seq<char>, distance: nat, term: Seq<u8>) -> bool;

/// Whether the automaton for `word` and `distance` stays within fst's state limit.
pub uninterp spec fn levenshtein_fits(word: Seq<char>, distance: nat) -> bool;

/// Edit distance allowed for a word of `len` characters.
pub open spec fn distance_for(len: nat) -> nat {
    if len <= 4 {
        0
    } else if len <= 8 {
        1
    } else {
        2
    }
}

/// Whether a term, or one of its prefixes when `prefix` holds, lies within
/// `distance` edits of `word`.
pub open spec fn tolerant_accepts(word: Seq<char>, distance: nat, prefix: bool, term: Seq<u8>) -> bool {
    if prefix {
        exists|k: int| 0 <= k <= term.len() && levenshtein_accepts(word, distance, #[trigger] term.subrange(0, k))
    } else {
        levenshtein_accepts(word, distance, term)
    }
}

/// The views of a list of terms.
pub open spec fn term_views(ts: Seq<Vec<u8>>) -> Seq<Seq<u8>> {
    ts.map_values(|t: Vec<u8>| t@)
}

/// Edit distance allowed for a word: none up to four characters, one up to
/// eight, two beyond.
pub fn dfa_distance(word: &str) -> (r: u32)
    ensures
        r as nat == distance_for(word@.len()),
{
    let len = word.unicode_len();
    if len <= 4 {
        0
    } else if len <= 8 {
        1
    } else {
        2
    }
}

/// Relies on fst::automaton::Levenshtein::new, which fails only where the
/// automaton outgrows its state limit, and on fst::Set::search, which streams
/// the dictionary's terms that the automaton accepts.
#[verifier::external_body]
fn search_levenshtein(set: &fst::Set<Vec<u8>>, word: &str, distance: u32) -> (r: Option<Vec<Vec<u8>>>)
    ensures
        r is Some <==> levenshtein_fits(word@, distance as nat),
        r matches Some(ts) ==> forall|t: Seq<u8>|
            #[trigger] term_views(ts@).contains(t) <==> (dictionary_terms(*set).contains(t)
                && levenshtein_accepts(word@, distance as nat, t)),
{
    match fst::automaton::Levenshtein::new(word, distance) {
        Ok(lev) => Some(set.search(lev).into_stream().into_bytes()),
        Err(_) => None,
    }
}

/// Relies on fst::automaton::Levenshtein::new as above, and on
/// fst::Automaton::starts_with, which accepts a term once the automaton has
/// accepted one of its prefixes, searched with fst::Set::search.
#[verifier::external_body]
fn search_levenshtein_prefix(set: &fst::Set<Vec<u8>>, word: &str, distance: u32) -> (r: Option<Vec<Vec<u8>>>)
    ensures
        r is Some <==> levenshtein_fits(word@, distance as nat),
        r matches Some(ts) ==> forall|t: Seq<u8>|
            #[trigger] term_views(ts@).contains(t) <==> (dictionary_terms(*set).contains(t)
                && tolerant_accepts(word@, distance as nat, true, t)),
{
    match fst::automaton::Levenshtein::new(word, distance) {
        Ok(lev) => Some(set.search(lev.starts_with()).into_stream().into_bytes()),
        Err(_) => None,
    }
}

/// Relies on fst::automaton::Str, which accepts exactly the bytes of the word,
/// searched with fst::Set::search.
#[verifier::external_body]
pub(crate) fn search_exact(set: &fst::Set<Vec<u8>>, word: &str) -> (r: Vec<Vec<u8>>)
    ensures
        forall|t: Seq<u8>|
            #[trigger] term_views(r@).contains(t) <==> (dictionary_terms(*set).contains(t)
                && t == term_bytes(word@)),
{
    set.search(fst::automaton::Str::new(word)).into_stream().into_bytes()
}

/// The dictionary's terms within the word's edit distance; with `prefix`,
/// those that extend such a term. `None` where the automaton cannot be built.
pub fn tolerant_terms(set: &fst::Set<Vec<u8>>, word: &str, prefix: bool) -> (r: Option<Vec<Vec<u8>>>)
    ensures
        r is Some <==> levenshtein_fits(word@, distance_for(word@.len())),
        r matches Some(ts) ==> forall|t: Seq<u8>|
            #[trigger] term_views(ts@).contains(t) <==> (dictionary_terms(*set).contains(t)
                && tolerant_accepts(word@, distance_for(word@.len()), prefix, t)),
{
    let distance = dfa_distance(word);
    if prefix {
        search_levenshtein_prefix(set, word, distance)
    } else {
        search_levenshtein(set, word, distance)
    }
}

} // verus!
