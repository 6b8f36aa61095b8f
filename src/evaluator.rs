//! Evaluation of a query tree into the ordered set of matching documents.
use vstd::prelude::*;
use crate::dictionary::{
    dictionary_terms, distance_for, levenshtein_fits, search_exact, term_views, tolerant_accepts,
    tolerant_terms,
};
use crate::builder::same_words;
use crate::index::{string_views, term_bytes, Context, DocIndex};
use crate::operation::{Operation, Query, QueryKind};
use crate::sets::{intersect_all, sort_dedup, strictly_ascending, union_all, DocumentId};

verus! {

/// `a` stands right before `b` in the same attribute of the same document.
pub open spec fn follows(a: DocIndex, b: DocIndex) -> bool {
    &&& a.document_id == b.document_id
    &&& a.attribute == b.attribute
    &&& a.word_index + 1 == b.word_index
}

/// Orders `a`, shifted one word on, against `b`.
pub open spec fn phrase_cmp(a: DocIndex, b: DocIndex) -> std::cmp::Ordering {
    if a.document_id < b.document_id
        || (a.document_id == b.document_id && a.attribute < b.attribute)
        || (a.document_id == b.document_id && a.attribute == b.attribute
            && a.word_index + 1 < b.word_index) {
        std::cmp::Ordering::Less
    } else if follows(a, b) {
        std::cmp::Ordering::Equal
    } else {
        std::cmp::Ordering::Greater
    }
}

/// Compares `(document_id, attribute, word_index + 1)` of `a` with
/// `(document_id, attribute, word_index)` of `b`.
pub fn phrase_order(a: &DocIndex, b: &DocIndex) -> (r: std::cmp::Ordering)
    ensures
        r == phrase_cmp(*a, *b),
{
    let x = a.word_index as u32 + 1;
    let y = b.word_index as u32;
    if a.document_id < b.document_id
        || (a.document_id == b.document_id && a.attribute < b.attribute)
        || (a.document_id == b.document_id && a.attribute == b.attribute && x < y) {
        std::cmp::Ordering::Less
    } else if a.document_id == b.document_id && a.attribute == b.attribute && x == y {
        std::cmp::Ordering::Equal
    } else {
        std::cmp::Ordering::Greater
    }
}

/// One item of a merge join.
pub enum Joined {
    Left(DocIndex),
    Both(DocIndex, DocIndex),
    Right(DocIndex),
}

/// Matches in strictly ascending order.
pub open spec fn matches_ascending(s: Seq<DocIndex>) -> bool {
    forall|i: int, j: int| 0 <= i < j < s.len() ==> crate::index::doc_index_lt(s[i], s[j])
}

/// Relies on itertools::merge_join_by, which walks two sequences that are
/// ascending under the comparison and pairs the items that compare equal.
#[verifier::external_body]
fn merge_join(first: &[DocIndex], second: &[DocIndex]) -> (r: Vec<Joined>)
    requires
        matches_ascending(first@),
        matches_ascending(second@),
    ensures
        forall|a: DocIndex, b: DocIndex|
            (exists|k: int| 0 <= k < r.len() && #[trigger] r[k] == Joined::Both(a, b))
                <==> (first@.contains(a) && second@.contains(b) && follows(a, b)),
{
    itertools::merge_join_by(first.iter(), second.iter(), |a, b| phrase_order(a, b))
        .map(|e| match e {
            itertools::EitherOrBoth::Left(a) => Joined::Left(*a),
            itertools::EitherOrBoth::Both(a, b) => Joined::Both(*a, *b),
            itertools::EitherOrBoth::Right(b) => Joined::Right(*b),
        })
        .collect()
}

/// Documents where an occurrence of the first term is followed by one of the second.
pub open spec fn phrase_docs(ctx: Context, first: Seq<u8>, second: Seq<u8>) -> Set<DocumentId> {
    Set::new(|d: DocumentId| exists|a: DocIndex, b: DocIndex|
        ctx.term_matches(first).contains(a) && ctx.term_matches(second).contains(b)
            && #[trigger] follows(a, b) && a.document_id == d)
}

/// Documents containing some term of the dictionary that a leaf accepts.
pub open spec fn query_docs(q: Query, dict: Set<Seq<u8>>, ctx: Context) -> Set<DocumentId> {
    match q.kind {
        QueryKind::Tolerant(w) => Set::new(|d: DocumentId| exists|t: Seq<u8>|
            dict.contains(t) && tolerant_accepts(w@, distance_for(w@.len()), q.prefix, t)
                && #[trigger] ctx.term_docs(t).contains(d)),
        QueryKind::Exact(w) => Set::new(|d: DocumentId|
            dict.contains(term_bytes(w@)) && ctx.term_docs(term_bytes(w@)).contains(d)),
        QueryKind::Phrase(ws) => if ws.len() == 2 {
            phrase_docs(ctx, term_bytes(ws[0]@), term_bytes(ws[1]@))
        } else {
            Set::empty()
        },
    }
}

/// The set-level meaning of a tree: leaves as above, `And` the intersection of
/// its children (none for no children), `Or` their union.
pub open spec fn operation_docs(op: Operation, dict: Set<Seq<u8>>, ctx: Context) -> Set<DocumentId>
    decreases op,
{
    match op {
        Operation::And(cs) => if cs@.len() == 0 {
            Set::empty()
        } else {
            all_docs(cs@, dict, ctx)
        },
        Operation::Or(cs) => any_docs(cs@, dict, ctx),
        Operation::Query(q) => query_docs(q, dict, ctx),
    }
}

/// Documents that every operation of the sequence selects.
pub open spec fn all_docs(cs: Seq<Operation>, dict: Set<Seq<u8>>, ctx: Context) -> Set<DocumentId>
    decreases cs,
{
    if cs.len() == 0 {
        Set::full()
    } else {
        all_docs(cs.drop_last(), dict, ctx).intersect(operation_docs(cs.last(), dict, ctx))
    }
}

/// Documents that some operation of the sequence selects.
pub open spec fn any_docs(cs: Seq<Operation>, dict: Set<Seq<u8>>, ctx: Context) -> Set<DocumentId>
    decreases cs,
{
    if cs.len() == 0 {
        Set::empty()
    } else {
        any_docs(cs.drop_last(), dict, ctx).union(operation_docs(cs.last(), dict, ctx))
    }
}

/// Every tolerant leaf's automaton can be built.
pub open spec fn operation_builds(op: Operation) -> bool
    decreases op,
{
    match op {
        Operation::And(cs) => all_build(cs@),
        Operation::Or(cs) => all_build(cs@),
        Operation::Query(q) => match q.kind {
            QueryKind::Tolerant(w) => levenshtein_fits(w@, distance_for(w@.len())),
            _ => true,
        },
    }
}

/// Every operation of the sequence can be built.
pub open spec fn all_build(cs: Seq<Operation>) -> bool
    decreases cs,
{
    if cs.len() == 0 {
        true
    } else {
        all_build(cs.drop_last()) && operation_builds(cs.last())
    }
}

/// `all_docs`, `any_docs` and `all_build` element by element.
pub proof fn lemma_seq_semantics(cs: Seq<Operation>, dict: Set<Seq<u8>>, ctx: Context, d: DocumentId)
    ensures
        all_docs(cs, dict, ctx).contains(d) <==> forall|i: int|
            0 <= i < cs.len() ==> #[trigger] operation_docs(cs[i], dict, ctx).contains(d),
        any_docs(cs, dict, ctx).contains(d) <==> exists|i: int|
            0 <= i < cs.len() && #[trigger] operation_docs(cs[i], dict, ctx).contains(d),
        all_build(cs) <==> forall|i: int| 0 <= i < cs.len() ==> #[trigger] operation_builds(cs[i]),
    decreases cs.len(),
{
    if cs.len() > 0 {
        let init = cs.drop_last();
        lemma_seq_semantics(init, dict, ctx, d);
        assert forall|i: int| 0 <= i < init.len() implies #[trigger] init[i] == cs[i] by {}
        if forall|i: int| 0 <= i < cs.len() ==> #[trigger] operation_docs(cs[i], dict, ctx).contains(d) {
            assert forall|i: int| 0 <= i < init.len() implies
                #[trigger] operation_docs(init[i], dict, ctx).contains(d) by {
                assert(operation_docs(cs[i], dict, ctx).contains(d));
            }
            assert(operation_docs(cs[cs.len() - 1], dict, ctx).contains(d));
        }
        if all_docs(cs, dict, ctx).contains(d) {
            assert forall|i: int| 0 <= i < cs.len() implies
                #[trigger] operation_docs(cs[i], dict, ctx).contains(d) by {
                if i < init.len() {
                    assert(operation_docs(init[i], dict, ctx).contains(d));
                }
            }
        }
        if exists|i: int| 0 <= i < cs.len() && #[trigger] operation_docs(cs[i], dict, ctx).contains(d) {
            let i = choose|i: int| 0 <= i < cs.len() && #[trigger] operation_docs(cs[i], dict, ctx).contains(d);
            if i < init.len() {
                assert(operation_docs(init[i], dict, ctx).contains(d));
            }
        }
        if any_docs(init, dict, ctx).contains(d) {
            let i = choose|i: int| 0 <= i < init.len() && #[trigger] operation_docs(init[i], dict, ctx).contains(d);
            assert(operation_docs(cs[i], dict, ctx).contains(d));
        }
        if forall|i: int| 0 <= i < cs.len() ==> #[trigger] operation_builds(cs[i]) {
            assert forall|i: int| 0 <= i < init.len() implies #[trigger] operation_builds(init[i]) by {
                assert(operation_builds(cs[i]));
            }
            assert(operation_builds(cs[cs.len() - 1]));
        }
        if all_build(cs) {
            assert forall|i: int| 0 <= i < cs.len() implies #[trigger] operation_builds(cs[i]) by {
                if i < init.len() {
                    assert(operation_builds(init[i]));
                }
            }
        }
    }
}

/// The document of a joined pair, if the item is one.
pub open spec fn both_doc(j: Joined) -> Option<DocumentId> {
    match j {
        Joined::Both(a, _) => Some(a.document_id),
        _ => None,
    }
}

/// The documents in which some of the given terms occur.
fn docs_of_terms(ctx: &Context, terms: &Vec<Vec<u8>>) -> (r: Vec<DocumentId>)
    requires
        ctx.wf(),
    ensures
        strictly_ascending(r@),
        forall|d: DocumentId|
            r@.contains(d) <==> exists|t: Seq<u8>|
                term_views(terms@).contains(t) && #[trigger] ctx.term_docs(t).contains(d),
{
    let mut parts: Vec<Vec<DocumentId>> = Vec::new();
    let mut k: usize = 0;
    while k < terms.len()
        invariant
            ctx.wf(),
            k <= terms.len(),
            parts.len() == k,
            forall|j: int, d: DocumentId|
                0 <= j < k ==> (#[trigger] parts[j]@.contains(d) <==> ctx.term_docs(terms[j]@).contains(d)),
        decreases terms.len() - k,
    {
        match ctx.postings_list(terms[k].as_slice()) {
            Some(pl) => parts.push(pl.docids.clone()),
            None => parts.push(Vec::new()),
        }
        k = k + 1;
    }
    let r = union_all(&parts);
    assert forall|d: DocumentId|
        r@.contains(d) <==> exists|t: Seq<u8>|
            term_views(terms@).contains(t) && #[trigger] ctx.term_docs(t).contains(d) by {
        if r@.contains(d) {
            let j = choose|j: int| 0 <= j < parts.len() && (#[trigger] parts[j]@).contains(d);
            assert(term_views(terms@)[j] == terms[j]@);
            assert(term_views(terms@).contains(terms[j]@));
            assert(ctx.term_docs(terms[j]@).contains(d));
        }
        if exists|t: Seq<u8>| term_views(terms@).contains(t) && #[trigger] ctx.term_docs(t).contains(d) {
            let t = choose|t: Seq<u8>| term_views(terms@).contains(t) && #[trigger] ctx.term_docs(t).contains(d);
            let j = choose|j: int| 0 <= j < term_views(terms@).len() && term_views(terms@)[j] == t;
            assert(parts[j]@.contains(d));
        }
    }
    r
}

/// Documents where the first word is directly followed by the second.
fn execute_phrase(ctx: &Context, first_word: &String, second_word: &String) -> (r: Vec<DocumentId>)
    requires
        ctx.wf(),
    ensures
        strictly_ascending(r@),
        r@.to_set() == phrase_docs(*ctx, term_bytes(first_word@), term_bytes(second_word@)),
{
    let ghost t1 = term_bytes(first_word@);
    let ghost t2 = term_bytes(second_word@);
    let empty: Vec<DocIndex> = Vec::new();
    let first: &[DocIndex] = match ctx.postings_list(first_word.as_str().as_bytes()) {
        Some(pl) => pl.matches.as_slice(),
        None => empty.as_slice(),
    };
    let second: &[DocIndex] = match ctx.postings_list(second_word.as_str().as_bytes()) {
        Some(pl) => pl.matches.as_slice(),
        None => empty.as_slice(),
    };
    assert forall|a: DocIndex| first@.contains(a) <==> ctx.term_matches(t1).contains(a) by {
        if ctx.term_matches(t1).contains(a) {
            assert(ctx.has_term(t1));
        }
    }
    assert forall|b: DocIndex| second@.contains(b) <==> ctx.term_matches(t2).contains(b) by {
        if ctx.term_matches(t2).contains(b) {
            assert(ctx.has_term(t2));
        }
    }
    let joined = merge_join(first, second);
    let mut ids: Vec<DocumentId> = Vec::new();
    let mut i: usize = 0;
    while i < joined.len()
        invariant
            i <= joined.len(),
            forall|d: DocumentId|
                ids@.contains(d) <==> exists|k: int| 0 <= k < i && both_doc(#[trigger] joined[k]) == Some(d),
        decreases joined.len() - i,
    {
        let ghost before = ids@;
        match &joined[i] {
            Joined::Both(a, _) => {
                ids.push(a.document_id);
            },
            _ => {},
        }
        assert forall|d: DocumentId|
            ids@.contains(d) <==> exists|k: int| 0 <= k < i + 1 && both_doc(#[trigger] joined[k]) == Some(d) by {
            if ids@.contains(d) && !before.contains(d) {
                assert(ids@.last() == d);
            }
            if exists|k: int| 0 <= k < i + 1 && both_doc(#[trigger] joined[k]) == Some(d) {
                let k = choose|k: int| 0 <= k < i + 1 && both_doc(#[trigger] joined[k]) == Some(d);
                if k < i {
                    assert(before.contains(d));
                    let p = choose|p: int| 0 <= p < before.len() && before[p] == d;
                    assert(ids@[p] == d);
                } else {
                    assert(ids@.last() == d);
                }
            }
        }
        i = i + 1;
    }
    let r = sort_dedup(ids);
    assert forall|d: DocumentId|
        r@.to_set().contains(d) <==> phrase_docs(*ctx, t1, t2).contains(d) by {
        assert(r@.to_set().contains(d) == ids@.contains(d));
        if ids@.contains(d) {
            let k = choose|k: int| 0 <= k < joined.len() && both_doc(#[trigger] joined[k]) == Some(d);
            let (a, b) = match joined[k] {
                Joined::Both(a, b) => (a, b),
                _ => (joined[k]->Both_0, joined[k]->Both_1),
            };
            assert(joined[k] == Joined::Both(a, b));
            assert(follows(a, b));
        }
        if phrase_docs(*ctx, t1, t2).contains(d) {
            let (a, b) = choose|a: DocIndex, b: DocIndex|
                ctx.term_matches(t1).contains(a) && ctx.term_matches(t2).contains(b)
                    && #[trigger] follows(a, b) && a.document_id == d;
            let k = choose|k: int| 0 <= k < joined.len() && #[trigger] joined[k] == Joined::Both(a, b);
            assert(both_doc(joined[k]) == Some(d));
        }
    }
    assert(r@.to_set() =~= phrase_docs(*ctx, t1, t2));
    r
}

/// Evaluates one leaf; `None` where its automaton cannot be built.
fn execute_query(set: &fst::Set<Vec<u8>>, ctx: &Context, query: &Query) -> (r: Option<Vec<DocumentId>>)
    requires
        ctx.wf(),
    ensures
        r is Some <==> operation_builds(Operation::Query(*query)),
        r matches Some(v) ==> strictly_ascending(v@)
            && v@.to_set() == query_docs(*query, dictionary_terms(*set), *ctx),
{
    let ghost dict = dictionary_terms(*set);
    match &query.kind {
        QueryKind::Tolerant(word) => {
            match tolerant_terms(set, word.as_str(), query.prefix) {
                None => None,
                Some(terms) => {
                    let r = docs_of_terms(ctx, &terms);
                    assert forall|d: DocumentId|
                        r@.to_set().contains(d) <==> query_docs(*query, dict, *ctx).contains(d) by {
                        assert(r@.to_set().contains(d) == r@.contains(d));
                        if r@.contains(d) {
                            let t = choose|t: Seq<u8>|
                                term_views(terms@).contains(t) && #[trigger] ctx.term_docs(t).contains(d);
                            assert(dict.contains(t));
                            assert(tolerant_accepts(word@, distance_for(word@.len()), query.prefix, t));
                            assert(query_docs(*query, dict, *ctx).contains(d));
                        }
                        if query_docs(*query, dict, *ctx).contains(d) {
                            let t = choose|t: Seq<u8>|
                                dict.contains(t) && tolerant_accepts(word@, distance_for(word@.len()), query.prefix, t)
                                    && #[trigger] ctx.term_docs(t).contains(d);
                            assert(term_views(terms@).contains(t));
                            assert(term_views(terms@).contains(t) && ctx.term_docs(t).contains(d));
                            assert(r@.contains(d));
                        }
                    }
                    assert(r@.to_set() =~= query_docs(*query, dict, *ctx));
                    Some(r)
                },
            }
        },
        QueryKind::Exact(word) => {
            let terms = search_exact(set, word.as_str());
            let r = docs_of_terms(ctx, &terms);
            assert forall|d: DocumentId|
                r@.to_set().contains(d) <==> query_docs(*query, dict, *ctx).contains(d) by {
                assert(r@.to_set().contains(d) == r@.contains(d));
                if query_docs(*query, dict, *ctx).contains(d) {
                    assert(ctx.term_docs(term_bytes(word@)).contains(d));
                    assert(term_views(terms@).contains(term_bytes(word@)));
                }
                if r@.contains(d) {
                    let t = choose|t: Seq<u8>|
                        term_views(terms@).contains(t) && #[trigger] ctx.term_docs(t).contains(d);
                    assert(t == term_bytes(word@));
                }
            }
            assert(r@.to_set() =~= query_docs(*query, dict, *ctx));
            Some(r)
        },
        QueryKind::Phrase(words) => {
            if words.len() == 2 {
                Some(execute_phrase(ctx, &words[0], &words[1]))
            } else {
                let r: Vec<DocumentId> = Vec::new();
                assert(r@.to_set() =~= query_docs(*query, dict, *ctx));
                Some(r)
            }
        },
    }
}

/// Two trees that can be built alike and select the same documents from every
/// dictionary and index.
pub open spec fn same_meaning(a: Operation, b: Operation) -> bool {
    &&& operation_builds(a) == operation_builds(b)
    &&& forall|dict: Set<Seq<u8>>, ctx: Context|
        #[trigger] operation_docs(a, dict, ctx) == operation_docs(b, dict, ctx)
}

/// Children that mean the same one by one make sequences that mean the same,
/// for one dictionary and index.
proof fn lemma_same_children_at(xs: Seq<Operation>, ys: Seq<Operation>, dict: Set<Seq<u8>>, ctx: Context)
    requires
        xs.len() == ys.len(),
        forall|k: int| 0 <= k < xs.len() ==> same_meaning(#[trigger] xs[k], ys[k]),
    ensures
        all_docs(xs, dict, ctx) == all_docs(ys, dict, ctx),
        any_docs(xs, dict, ctx) == any_docs(ys, dict, ctx),
{
    assert forall|k: int| 0 <= k < xs.len() implies
        #[trigger] operation_docs(xs[k], dict, ctx) == operation_docs(ys[k], dict, ctx) by {
        assert(same_meaning(xs[k], ys[k]));
    }
    assert forall|d: DocumentId|
        all_docs(xs, dict, ctx).contains(d) == all_docs(ys, dict, ctx).contains(d)
            && any_docs(xs, dict, ctx).contains(d) == any_docs(ys, dict, ctx).contains(d) by {
        lemma_seq_semantics(xs, dict, ctx, d);
        lemma_seq_semantics(ys, dict, ctx, d);
        if any_docs(ys, dict, ctx).contains(d) {
            let k = choose|k: int| 0 <= k < ys.len() && #[trigger] operation_docs(ys[k], dict, ctx).contains(d);
            assert(operation_docs(xs[k], dict, ctx).contains(d));
        }
        if any_docs(xs, dict, ctx).contains(d) {
            let k = choose|k: int| 0 <= k < xs.len() && #[trigger] operation_docs(xs[k], dict, ctx).contains(d);
            assert(operation_docs(ys[k], dict, ctx).contains(d));
        }
        if all_docs(ys, dict, ctx).contains(d) {
            assert forall|k: int| 0 <= k < xs.len() implies
                #[trigger] operation_docs(xs[k], dict, ctx).contains(d) by {
                assert(operation_docs(ys[k], dict, ctx).contains(d));
            }
        }
        if all_docs(xs, dict, ctx).contains(d) {
            assert forall|k: int| 0 <= k < ys.len() implies
                #[trigger] operation_docs(ys[k], dict, ctx).contains(d) by {
                assert(operation_docs(xs[k], dict, ctx).contains(d));
            }
        }
    }
    assert(all_docs(xs, dict, ctx) =~= all_docs(ys, dict, ctx));
    assert(any_docs(xs, dict, ctx) =~= any_docs(ys, dict, ctx));
}

/// Children that mean the same one by one can be built alike.
proof fn lemma_same_children_build(xs: Seq<Operation>, ys: Seq<Operation>)
    requires
        xs.len() == ys.len(),
        forall|k: int| 0 <= k < xs.len() ==> same_meaning(#[trigger] xs[k], ys[k]),
    ensures
        all_build(xs) == all_build(ys),
{
    let ctx0: Context = arbitrary();
    lemma_seq_semantics(xs, Set::empty(), ctx0, 0);
    lemma_seq_semantics(ys, Set::empty(), ctx0, 0);
    assert forall|k: int| 0 <= k < xs.len() implies
        #[trigger] operation_builds(xs[k]) == operation_builds(ys[k]) by {
        assert(same_meaning(xs[k], ys[k]));
    }
    if all_build(xs) {
        assert forall|k: int| 0 <= k < ys.len() implies #[trigger] operation_builds(ys[k]) by {
            assert(operation_builds(xs[k]));
        }
    }
    if all_build(ys) {
        assert forall|k: int| 0 <= k < xs.len() implies #[trigger] operation_builds(xs[k]) by {
            assert(operation_builds(ys[k]));
        }
    }
}

/// Whether two leaves are equal field by field.
fn same_query(x: &Query, y: &Query) -> (r: bool)
    ensures
        r ==> same_meaning(Operation::Query(*x), Operation::Query(*y)),
{
    if x.id != y.id || x.prefix != y.prefix {
        return false;
    }
    match &x.kind {
        QueryKind::Tolerant(a) => match &y.kind {
            QueryKind::Tolerant(b) => {
                let r = *a == *b;
                proof {
                    if r {
                        assert forall|dict: Set<Seq<u8>>, ctx: Context|
                            #[trigger] operation_docs(Operation::Query(*x), dict, ctx)
                                == operation_docs(Operation::Query(*y), dict, ctx) by {
                            assert(query_docs(*x, dict, ctx) =~= query_docs(*y, dict, ctx));
                        }
                    }
                }
                r
            },
            _ => false,
        },
        QueryKind::Exact(a) => match &y.kind {
            QueryKind::Exact(b) => {
                let r = *a == *b;
                proof {
                    if r {
                        assert forall|dict: Set<Seq<u8>>, ctx: Context|
                            #[trigger] operation_docs(Operation::Query(*x), dict, ctx)
                                == operation_docs(Operation::Query(*y), dict, ctx) by {
                            assert(query_docs(*x, dict, ctx) =~= query_docs(*y, dict, ctx));
                        }
                    }
                }
                r
            },
            _ => false,
        },
        QueryKind::Phrase(a) => match &y.kind {
            QueryKind::Phrase(b) => {
                let r = same_words(a, b);
                proof {
                    if r {
                        assert(a.len() == string_views(a@).len());
                        assert(b.len() == string_views(b@).len());
                        if a.len() == 2 {
                            assert(a[0]@ == string_views(a@)[0]);
                            assert(b[0]@ == string_views(b@)[0]);
                            assert(a[1]@ == string_views(a@)[1]);
                            assert(b[1]@ == string_views(b@)[1]);
                        }
                        assert forall|dict: Set<Seq<u8>>, ctx: Context|
                            #[trigger] operation_docs(Operation::Query(*x), dict, ctx)
                                == operation_docs(Operation::Query(*y), dict, ctx) by {
                            assert(query_docs(*x, dict, ctx) =~= query_docs(*y, dict, ctx));
                        }
                    }
                }
                r
            },
            _ => false,
        },
    }
}

/// Whether two child lists are equal tree by tree.
fn same_children(xs: &Vec<Operation>, ys: &Vec<Operation>) -> (r: bool)
    ensures
        r ==> xs.len() == ys.len(),
        r ==> forall|k: int| 0 <= k < xs.len() ==> same_meaning(#[trigger] xs[k], ys[k]),
    decreases xs,
{
    if xs.len() != ys.len() {
        return false;
    }
    let mut k: usize = 0;
    while k < xs.len()
        invariant
            xs.len() == ys.len(),
            k <= xs.len(),
            forall|j: int| 0 <= j < k ==> same_meaning(#[trigger] xs[j], ys[j]),
        decreases xs.len() - k,
    {
        proof {
            vstd::std_specs::vec::axiom_vec_index_decreases(*xs, k as int);
        }
        if !same_operation(&xs[k], &ys[k]) {
            return false;
        }
        k = k + 1;
    }
    true
}

/// Whether two trees are equal node by node; equal trees mean the same.
fn same_operation(a: &Operation, b: &Operation) -> (r: bool)
    ensures
        r ==> same_meaning(*a, *b),
    decreases a,
{
    match a {
        Operation::And(xs) => match b {
            Operation::And(ys) => {
                let r = same_children(xs, ys);
                proof {
                    if r {
                        lemma_same_children_build(xs@, ys@);
                        assert forall|dict: Set<Seq<u8>>, ctx: Context|
                            #[trigger] operation_docs(*a, dict, ctx) == operation_docs(*b, dict, ctx) by {
                            lemma_same_children_at(xs@, ys@, dict, ctx);
                        }
                    }
                }
                r
            },
            _ => false,
        },
        Operation::Or(xs) => match b {
            Operation::Or(ys) => {
                let r = same_children(xs, ys);
                proof {
                    if r {
                        lemma_same_children_build(xs@, ys@);
                        assert forall|dict: Set<Seq<u8>>, ctx: Context|
                            #[trigger] operation_docs(*a, dict, ctx) == operation_docs(*b, dict, ctx) by {
                            lemma_same_children_at(xs@, ys@, dict, ctx);
                        }
                    }
                }
                r
            },
            _ => false,
        },
        Operation::Query(x) => match b {
            Operation::Query(y) => same_query(x, y),
            _ => false,
        },
    }
}

/// Every entry of the cache holds the ordered document set of its tree.
pub open spec fn cache_ok(cache: Seq<(&Operation, Vec<DocumentId>)>, dict: Set<Seq<u8>>, ctx: Context) -> bool {
    forall|i: int| 0 <= i < cache.len() ==> {
        &&& operation_builds(*(#[trigger] cache[i]).0)
        &&& strictly_ascending(cache[i].1@)
        &&& cache[i].1@.to_set() == operation_docs(*cache[i].0, dict, ctx)
    }
}

/// The cached document set of a tree equal to `op`, if there is one.
fn cached(cache: &Vec<(&Operation, Vec<DocumentId>)>, op: &Operation, Ghost(dict): Ghost<Set<Seq<u8>>>, Ghost(ctx): Ghost<Context>) -> (r: Option<Vec<DocumentId>>)
    requires
        cache_ok(cache@, dict, ctx),
    ensures
        r matches Some(v) ==> operation_builds(*op) && strictly_ascending(v@)
            && v@.to_set() == operation_docs(*op, dict, ctx),
{
    let mut i: usize = 0;
    while i < cache.len()
        invariant
            i <= cache.len(),
            cache_ok(cache@, dict, ctx),
        decreases cache.len() - i,
    {
        if same_operation(cache[i].0, op) {
            assert(operation_docs(*cache[i as int].0, dict, ctx) == operation_docs(*op, dict, ctx));
            return Some(cache[i].1.clone());
        }
        i = i + 1;
    }
    None
}

/// Evaluates the children of a node in order, each through the cache, and
/// caches what it computes; `None` as soon as one fails.
fn execute_children<'o>(set: &fst::Set<Vec<u8>>, ctx: &Context, ops: &'o Vec<Operation>, cache: &mut Vec<(&'o Operation, Vec<DocumentId>)>) -> (r: Option<Vec<Vec<DocumentId>>>)
    requires
        ctx.wf(),
        cache_ok(old(cache)@, dictionary_terms(*set), *ctx),
    ensures
        cache_ok(final(cache)@, dictionary_terms(*set), *ctx),
        r is Some <==> forall|j: int| 0 <= j < ops.len() ==> operation_builds(#[trigger] ops[j]),
        r matches Some(parts) ==> {
            &&& parts.len() == ops.len()
            &&& forall|j: int| 0 <= j < ops.len() ==> strictly_ascending(#[trigger] parts[j]@)
            &&& forall|j: int| 0 <= j < ops.len() ==> (#[trigger] parts[j]@).to_set()
                == operation_docs(ops[j], dictionary_terms(*set), *ctx)
        },
    decreases ops,
{
    let ghost dict = dictionary_terms(*set);
    let mut parts: Vec<Vec<DocumentId>> = Vec::new();
    let mut k: usize = 0;
    while k < ops.len()
        invariant
            ctx.wf(),
            dict == dictionary_terms(*set),
            cache_ok(cache@, dict, *ctx),
            k <= ops.len(),
            parts.len() == k,
            forall|j: int| 0 <= j < k ==> operation_builds(#[trigger] ops[j]),
            forall|j: int| 0 <= j < k ==> strictly_ascending(#[trigger] parts[j]@),
            forall|j: int| 0 <= j < k ==> (#[trigger] parts[j]@).to_set()
                == operation_docs(ops[j], dict, *ctx),
        decreases ops.len() - k,
    {
        proof {
            vstd::std_specs::vec::axiom_vec_index_decreases(*ops, k as int);
        }
        let child = &ops[k];
        let v = match cached(cache, child, Ghost(dict), Ghost(*ctx)) {
            Some(v) => v,
            None => match execute(set, ctx, child, cache) {
                Some(v) => {
                    let ghost before = cache@;
                    cache.push((child, v.clone()));
                    assert forall|i: int| 0 <= i < cache@.len() implies {
                        &&& operation_builds(*(#[trigger] cache@[i]).0)
                        &&& strictly_ascending(cache@[i].1@)
                        &&& cache@[i].1@.to_set() == operation_docs(*cache@[i].0, dict, *ctx)
                    } by {
                        if i < before.len() {
                            assert(cache@[i] == before[i]);
                        }
                    }
                    v
                },
                None => {
                    assert(!operation_builds(ops[k as int]));
                    return None;
                },
            },
        };
        let ghost pv = v@;
        parts.push(v);
        assert(parts[k as int]@ == pv);
        k = k + 1;
    }
    Some(parts)
}

/// Evaluates a subtree depth first, left to right, through the cache; `None`
/// where some tolerant leaf's automaton cannot be built.
fn execute<'o>(set: &fst::Set<Vec<u8>>, ctx: &Context, op: &'o Operation, cache: &mut Vec<(&'o Operation, Vec<DocumentId>)>) -> (r: Option<Vec<DocumentId>>)
    requires
        ctx.wf(),
        cache_ok(old(cache)@, dictionary_terms(*set), *ctx),
    ensures
        cache_ok(final(cache)@, dictionary_terms(*set), *ctx),
        r is Some <==> operation_builds(*op),
        r matches Some(v) ==> strictly_ascending(v@)
            && v@.to_set() == operation_docs(*op, dictionary_terms(*set), *ctx),
    decreases op,
{
    let ghost dict = dictionary_terms(*set);
    match op {
        Operation::Query(query) => execute_query(set, ctx, query),
        Operation::And(ops) => {
            let parts = match execute_children(set, ctx, ops, cache) {
                Some(parts) => parts,
                None => {
                    proof {
                        lemma_seq_semantics(ops@, dict, *ctx, 0);
                    }
                    return None;
                },
            };
            proof {
                lemma_seq_semantics(ops@, dict, *ctx, 0);
            }
            let r = intersect_all(&parts);
            assert forall|d: DocumentId| r@.to_set().contains(d) <==> operation_docs(*op, dict, *ctx).contains(d) by {
                lemma_seq_semantics(ops@, dict, *ctx, d);
                assert(r@.to_set().contains(d) == r@.contains(d));
                assert forall|j: int| 0 <= j < parts.len() implies
                    (#[trigger] parts[j]@).contains(d) == operation_docs(ops[j], dict, *ctx).contains(d) by {
                    assert(parts[j]@.to_set().contains(d) == parts[j]@.contains(d));
                }
                if r@.contains(d) {
                    assert forall|j: int| 0 <= j < ops.len() implies
                        #[trigger] operation_docs(ops[j], dict, *ctx).contains(d) by {
                        assert(parts[j]@.contains(d));
                    }
                }
                if operation_docs(*op, dict, *ctx).contains(d) {
                    assert forall|j: int| 0 <= j < parts.len() implies
                        (#[trigger] parts[j]@).contains(d) by {
                        assert(operation_docs(ops[j], dict, *ctx).contains(d));
                    }
                }
            }
            assert(r@.to_set() =~= operation_docs(*op, dict, *ctx));
            Some(r)
        },
        Operation::Or(ops) => {
            let parts = match execute_children(set, ctx, ops, cache) {
                Some(parts) => parts,
                None => {
                    proof {
                        lemma_seq_semantics(ops@, dict, *ctx, 0);
                    }
                    return None;
                },
            };
            proof {
                lemma_seq_semantics(ops@, dict, *ctx, 0);
            }
            let r = union_all(&parts);
            assert forall|d: DocumentId| r@.to_set().contains(d) <==> operation_docs(*op, dict, *ctx).contains(d) by {
                lemma_seq_semantics(ops@, dict, *ctx, d);
                assert(r@.to_set().contains(d) == r@.contains(d));
                assert forall|j: int| 0 <= j < parts.len() implies
                    (#[trigger] parts[j]@).contains(d) == operation_docs(ops[j], dict, *ctx).contains(d) by {
                    assert(parts[j]@.to_set().contains(d) == parts[j]@.contains(d));
                }
                if r@.contains(d) {
                    let j = choose|j: int| 0 <= j < parts.len() && (#[trigger] parts[j]@).contains(d);
                    assert(operation_docs(ops[j], dict, *ctx).contains(d));
                }
                if operation_docs(*op, dict, *ctx).contains(d) {
                    let j = choose|j: int| 0 <= j < ops.len()
                        && #[trigger] operation_docs(ops[j], dict, *ctx).contains(d);
                    assert(parts[j]@.contains(d));
                }
            }
            assert(r@.to_set() =~= operation_docs(*op, dict, *ctx));
            Some(r)
        },
    }
}

/// The documents that a query tree selects.
pub struct QueryResult {
    pub docids: Vec<DocumentId>,
}

/// Why a tree could not be evaluated.
#[derive(PartialEq, Eq, Structural, Clone, Copy, Debug)]
pub enum QueryError {
    /// A tolerant leaf's automaton outgrew the state limit.
    AutomatonTooLarge,
}

/// Evaluates a query tree against a dictionary and an index: the ordered set
/// of documents that the tree selects.
pub fn traverse_query_tree(words_set: &fst::Set<Vec<u8>>, ctx: &Context, tree: &Operation) -> (r: Result<QueryResult, QueryError>)
    requires
        ctx.wf(),
    ensures
        r is Ok <==> operation_builds(*tree),
        r matches Ok(res) ==> strictly_ascending(res.docids@)
            && res.docids@.to_set() == operation_docs(*tree, dictionary_terms(*words_set), *ctx),
        r matches Err(e) ==> e == QueryError::AutomatonTooLarge,
{
    let mut cache: Vec<(&Operation, Vec<DocumentId>)> = Vec::new();
    match execute(words_set, ctx, tree, &mut cache) {
        Some(docids) => Ok(QueryResult { docids }),
        None => Err(QueryError::AutomatonTooLarge),
    }
}

/// Two strictly ascending sequences that hold the same elements are equal: an
/// ordered document set is determined by the documents it holds, so
/// evaluating one tree twice against one index gives the same sequence.
pub proof fn lemma_ascending_unique(a: Seq<DocumentId>, b: Seq<DocumentId>)
    requires
        strictly_ascending(a),
        strictly_ascending(b),
        a.to_set() == b.to_set(),
    ensures
        a == b,
    decreases a.len() + b.len(),
{
    if a.len() == 0 || b.len() == 0 {
        if a.len() > 0 {
            assert(a.to_set().contains(a[0]));
        }
        if b.len() > 0 {
            assert(b.to_set().contains(b[0]));
        }
        assert(a =~= b);
    } else {
        assert(a.to_set().contains(a[0]));
        assert(b.to_set().contains(b[0]));
        let i = choose|i: int| 0 <= i < b.len() && b[i] == a[0];
        let j = choose|j: int| 0 <= j < a.len() && a[j] == b[0];
        assert(a[0] == b[0]) by {
            if i > 0 {
                assert(b[0] < b[i]);
                if j > 0 {
                    assert(a[0] < a[j]);
                }
            }
        }
        let a1 = a.drop_first();
        let b1 = b.drop_first();
        assert forall|x: DocumentId| a1.to_set().contains(x) <==> b1.to_set().contains(x) by {
            if a1.to_set().contains(x) {
                let k = choose|k: int| 0 <= k < a1.len() && a1[k] == x;
                assert(a[k + 1] == x);
                assert(a.to_set().contains(x));
                assert(b.to_set().contains(x));
                let m = choose|m: int| 0 <= m < b.len() && b[m] == x;
                if m == 0 {
                    assert(a[0] < a[k + 1]);
                }
                assert(b1[m - 1] == x);
            }
            if b1.to_set().contains(x) {
                let k = choose|k: int| 0 <= k < b1.len() && b1[k] == x;
                assert(b[k + 1] == x);
                assert(b.to_set().contains(x));
                assert(a.to_set().contains(x));
                let m = choose|m: int| 0 <= m < a.len() && a[m] == x;
                if m == 0 {
                    assert(b[0] < b[k + 1]);
                }
                assert(a1[m - 1] == x);
            }
        }
        assert(a1.to_set() =~= b1.to_set());
        lemma_ascending_unique(a1, b1);
        assert(a =~= seq![a[0]] + a1);
        assert(b =~= seq![b[0]] + b1);
    }
}

/// Two evaluations of one tree against one dictionary and index give the same
/// sequence of documents.
pub proof fn lemma_evaluation_repeatable(tree: Operation, dict: Set<Seq<u8>>, ctx: Context, first: Seq<DocumentId>, second: Seq<DocumentId>)
    requires
        strictly_ascending(first),
        strictly_ascending(second),
        first.to_set() == operation_docs(tree, dict, ctx),
        second.to_set() == operation_docs(tree, dict, ctx),
    ensures
        first == second,
{
    lemma_ascending_unique(first, second);
}

/// Swapping the two children of an `And`, or of an `Or`, leaves the selected
/// documents unchanged.
pub proof fn lemma_commutative(x: Operation, y: Operation, xy: Vec<Operation>, yx: Vec<Operation>, dict: Set<Seq<u8>>, ctx: Context)
    requires
        xy@ == seq![x, y],
        yx@ == seq![y, x],
    ensures
        operation_docs(Operation::And(xy), dict, ctx) == operation_docs(Operation::And(yx), dict, ctx),
        operation_docs(Operation::Or(xy), dict, ctx) == operation_docs(Operation::Or(yx), dict, ctx),
{
    assert forall|d: DocumentId|
        operation_docs(Operation::And(xy), dict, ctx).contains(d)
            == operation_docs(Operation::And(yx), dict, ctx).contains(d)
        && operation_docs(Operation::Or(xy), dict, ctx).contains(d)
            == operation_docs(Operation::Or(yx), dict, ctx).contains(d) by {
        lemma_seq_semantics(xy@, dict, ctx, d);
        lemma_seq_semantics(yx@, dict, ctx, d);
        assert(xy@[0] == yx@[1] && xy@[1] == yx@[0]);
        if operation_docs(Operation::Or(xy), dict, ctx).contains(d) {
            if operation_docs(xy@[0], dict, ctx).contains(d) {
                assert(operation_docs(yx@[1], dict, ctx).contains(d));
            } else {
                assert(operation_docs(yx@[0], dict, ctx).contains(d));
            }
        }
        if operation_docs(Operation::Or(yx), dict, ctx).contains(d) {
            if operation_docs(yx@[0], dict, ctx).contains(d) {
                assert(operation_docs(xy@[1], dict, ctx).contains(d));
            } else {
                assert(operation_docs(xy@[0], dict, ctx).contains(d));
            }
        }
    }
    assert(operation_docs(Operation::And(xy), dict, ctx) =~= operation_docs(Operation::And(yx), dict, ctx));
    assert(operation_docs(Operation::Or(xy), dict, ctx) =~= operation_docs(Operation::Or(yx), dict, ctx));
}

/// An `And` or an `Or` of one operation twice selects what that operation
/// selects.
pub proof fn lemma_idempotent(x: Operation, xx: Vec<Operation>, dict: Set<Seq<u8>>, ctx: Context)
    requires
        xx@ == seq![x, x],
    ensures
        operation_docs(Operation::And(xx), dict, ctx) == operation_docs(x, dict, ctx),
        operation_docs(Operation::Or(xx), dict, ctx) == operation_docs(x, dict, ctx),
{
    assert forall|d: DocumentId|
        operation_docs(Operation::And(xx), dict, ctx).contains(d) == operation_docs(x, dict, ctx).contains(d)
        && operation_docs(Operation::Or(xx), dict, ctx).contains(d) == operation_docs(x, dict, ctx).contains(d) by {
        lemma_seq_semantics(xx@, dict, ctx, d);
        assert(xx@[0] == x && xx@[1] == x);
    }
    assert(operation_docs(Operation::And(xx), dict, ctx) =~= operation_docs(x, dict, ctx));
    assert(operation_docs(Operation::Or(xx), dict, ctx) =~= operation_docs(x, dict, ctx));
}

/// An `Or` without children, the tree of an empty query, selects nothing and
/// always evaluates.
pub proof fn lemma_empty_or(cs: Vec<Operation>, dict: Set<Seq<u8>>, ctx: Context)
    requires
        cs.len() == 0,
    ensures
        operation_docs(Operation::Or(cs), dict, ctx) == Set::<DocumentId>::empty(),
        operation_builds(Operation::Or(cs)),
{
    assert(operation_docs(Operation::Or(cs), dict, ctx) =~= Set::<DocumentId>::empty());
}

} // verus!
