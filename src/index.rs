//! The read-only index that queries run against: postings lists and synonyms.
use vstd::prelude::*;
use vstd::string::*;
use vstd::utf8::encode_utf8;
use crate::sets::{DocumentId, strictly_ascending};

verus! {

/// One occurrence of a term: in a document, an attribute and a word position.
#[derive(PartialEq, Eq, Structural, Clone, Copy, Debug)]
pub struct DocIndex {
    pub document_id: DocumentId,
    pub attribute: u16,
    pub word_index: u16,
}

/// Lexicographic order on `(document_id, attribute, word_index)`.
pub open spec fn doc_index_lt(a: DocIndex, b: DocIndex) -> bool {
    a.document_id < b.document_id
        || (a.document_id == b.document_id && a.attribute < b.attribute)
        || (a.document_id == b.document_id && a.attribute == b.attribute
            && a.word_index < b.word_index)
}

/// The occurrences of one term and the documents they fall in.
#[derive(Debug, Default)]
pub struct PostingsList {
    pub docids: Vec<DocumentId>,
    pub matches: Vec<DocIndex>,
}

impl PostingsList {
    /// Matches in strictly ascending order; `docids` the ordered set of their documents.
    pub open spec fn wf(&self) -> bool {
        &&& forall|i: int, j: int|
            0 <= i < j < self.matches.len() ==> doc_index_lt(self.matches[i], self.matches[j])
        &&& strictly_ascending(self.docids@)
        &&& forall|d: DocumentId|
            self.docids@.contains(d) <==> exists|i: int|
                0 <= i < self.matches.len() && (#[trigger] self.matches[i]).document_id == d
    }
}

/// Synonyms and postings lists, keyed by the exact words.
#[derive(Debug, Default)]
pub struct Context {
    pub synonyms: Vec<(Vec<String>, Vec<Vec<String>>)>,
    pub postings: Vec<(String, PostingsList)>,
}

/// The views of a list of strings.
pub open spec fn string_views(ws: Seq<String>) -> Seq<Seq<char>> {
    ws.map_values(|w: String| w@)
}

/// The views of a list of word lists.
pub open spec fn phrase_views(ps: Seq<Vec<String>>) -> Seq<Seq<Seq<char>>> {
    ps.map_values(|p: Vec<String>| string_views(p@))
}

/// The bytes of a term.
pub open spec fn term_bytes(s: Seq<char>) -> Seq<u8> {
    encode_utf8(s)
}

impl Context {
    /// Each postings list is well formed, no term has two of them, and no
    /// word list has two synonym entries.
    pub open spec fn wf(&self) -> bool {
        &&& forall|i: int, j: int|
            0 <= i < j < self.synonyms.len() ==> string_views((#[trigger] self.synonyms[i]).0@)
                != string_views((#[trigger] self.synonyms[j]).0@)
        &&& forall|i: int| 0 <= i < self.postings.len() ==> (#[trigger] self.postings[i]).1.wf()
        &&& forall|i: int, j: int|
            0 <= i < j < self.postings.len() ==> term_bytes(#[trigger] self.postings[i].0@)
                != term_bytes(#[trigger] self.postings[j].0@)
    }

    /// The synonym lists recorded for a word list; none where it has no entry.
    pub open spec fn synonyms_of(&self, ws: Seq<Seq<char>>) -> Seq<Seq<Seq<char>>> {
        if exists|i: int| 0 <= i < self.synonyms.len() && string_views((#[trigger] self.synonyms[i]).0@) == ws {
            let i = choose|i: int| 0 <= i < self.synonyms.len() && string_views((#[trigger] self.synonyms[i]).0@) == ws;
            phrase_views(self.synonyms[i].1@)
        } else {
            Seq::empty()
        }
    }

    /// Whether the index holds a postings list for the term.
    pub open spec fn has_term(&self, t: Seq<u8>) -> bool {
        exists|i: int| 0 <= i < self.postings.len() && term_bytes((#[trigger] self.postings[i]).0@) == t
    }

    /// The documents in which the term occurs.
    pub open spec fn term_docs(&self, t: Seq<u8>) -> Set<DocumentId> {
        Set::new(|d: DocumentId| exists|i: int|
            0 <= i < self.postings.len() && term_bytes((#[trigger] self.postings[i]).0@) == t
                && self.postings[i].1.docids@.contains(d))
    }

    /// The occurrences of the term.
    pub open spec fn term_matches(&self, t: Seq<u8>) -> Set<DocIndex> {
        Set::new(|m: DocIndex| exists|i: int|
            0 <= i < self.postings.len() && term_bytes((#[trigger] self.postings[i]).0@) == t
                && self.postings[i].1.matches@.contains(m))
    }

    /// Number of occurrences of the term; zero where it is absent.
    pub open spec fn frequency(&self, t: Seq<u8>) -> nat {
        if self.has_term(t) {
            let i = choose|i: int|
                0 <= i < self.postings.len() && term_bytes((#[trigger] self.postings[i]).0@) == t;
            self.postings[i].1.matches.len() as nat
        } else {
            0
        }
    }

    /// Two entries never share a term.
    pub proof fn lemma_terms_distinct(&self, i: int, j: int)
        requires
            self.wf(),
            0 <= i < self.postings.len(),
            0 <= j < self.postings.len(),
            i != j,
        ensures
            term_bytes(self.postings[i].0@) != term_bytes(self.postings[j].0@),
    {
        if i < j {
            assert(term_bytes(self.postings[i].0@) != term_bytes(self.postings[j].0@));
        } else {
            assert(term_bytes(self.postings[j].0@) != term_bytes(self.postings[i].0@));
        }
    }

    /// The postings list of a term, if the index holds one.
    pub fn postings_list(&self, term: &[u8]) -> (r: Option<&PostingsList>)
        requires
            self.wf(),
        ensures
            r is None <==> !self.has_term(term@),
            r matches Some(pl) ==> {
                &&& pl.wf()
                &&& forall|d: DocumentId| pl.docids@.contains(d) <==> self.term_docs(term@).contains(d)
                &&& forall|m: DocIndex| pl.matches@.contains(m) <==> self.term_matches(term@).contains(m)
                &&& pl.matches.len() == self.frequency(term@)
            },
    {
        let mut i: usize = 0;
        while i < self.postings.len()
            invariant
                self.wf(),
                i <= self.postings.len(),
                forall|j: int| 0 <= j < i ==> term_bytes((#[trigger] self.postings[j]).0@) != term@,
            decreases self.postings.len() - i,
        {
            if bytes_equal(self.postings[i].0.as_str().as_bytes(), term) {
                let pl = &self.postings[i].1;
                proof {
                    assert(self.has_term(term@));
                    let k = choose|k: int|
                        0 <= k < self.postings.len() && term_bytes((#[trigger] self.postings[k]).0@) == term@;
                    if k != i {
                        self.lemma_terms_distinct(k, i as int);
                    }
                    assert forall|d: DocumentId| pl.docids@.contains(d) <==> self.term_docs(term@).contains(d) by {
                        if self.term_docs(term@).contains(d) {
                            let j = choose|j: int|
                                0 <= j < self.postings.len() && term_bytes((#[trigger] self.postings[j]).0@) == term@
                                    && self.postings[j].1.docids@.contains(d);
                            if j != i {
                                self.lemma_terms_distinct(j, i as int);
                            }
                        }
                    }
                    assert forall|m: DocIndex| pl.matches@.contains(m) <==> self.term_matches(term@).contains(m) by {
                        if self.term_matches(term@).contains(m) {
                            let j = choose|j: int|
                                0 <= j < self.postings.len() && term_bytes((#[trigger] self.postings[j]).0@) == term@
                                    && self.postings[j].1.matches@.contains(m);
                            if j != i {
                                self.lemma_terms_distinct(j, i as int);
                            }
                        }
                    }
                }
                return Some(pl);
            }
            i = i + 1;
        }
        None
    }
}

/// Byte-wise equality.
pub fn bytes_equal(a: &[u8], b: &[u8]) -> (r: bool)
    ensures
        r == (a@ == b@),
{
    if a.len() != b.len() {
        return false;
    }
    let mut i: usize = 0;
    while i < a.len()
        invariant
            a.len() == b.len(),
            i <= a.len(),
            a@.subrange(0, i as int) == b@.subrange(0, i as int),
        decreases a.len() - i,
    {
        if a[i] != b[i] {
            assert(a@[i as int] != b@[i as int]);
            return false;
        }
        assert(a@.subrange(0, i + 1) =~= a@.subrange(0, i as int).push(a@[i as int]));
        assert(b@.subrange(0, i + 1) =~= b@.subrange(0, i as int).push(b@[i as int]));
        i = i + 1;
    }
    assert(a@ =~= a@.subrange(0, i as int));
    assert(b@ =~= b@.subrange(0, i as int));
    true
}

} // verus!
