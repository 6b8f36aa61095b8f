use std::cmp::Ordering;
use query_tree::builder::{create_query_tree, fetch_synonyms, split_best_frequency};
use query_tree::dictionary::{dfa_distance, tolerant_terms};
use query_tree::evaluator::{phrase_order, traverse_query_tree, QueryError};
use query_tree::index::{bytes_equal, Context, DocIndex, PostingsList};
use query_tree::operation::{create_operation, is_last, Operation, Query, QueryKind};
use query_tree::sets::union_all;
use query_tree::tokenizer::{contains_whitespace, tokenize};

fn occ(document_id: u32, attribute: u16, word_index: u16) -> DocIndex {
    DocIndex { document_id, attribute, word_index }
}

fn postings(matches: Vec<DocIndex>) -> PostingsList {
    let mut docids: Vec<u32> = matches.iter().map(|m| m.document_id).collect();
    docids.dedup();
    PostingsList { docids, matches }
}

/// "new" in {1, 7}, "york" in {2, 7}, "newyork" and "bigapple" in 7,
/// "big" in {3, 8}, "apple" in {4, 8, 9}; in document 7 "new" is directly
/// followed by "york".
fn fixture() -> (fst::Set<Vec<u8>>, Context) {
    let terms = vec!["apple", "big", "bigapple", "new", "newyork", "york"];
    let set = fst::Set::from_iter(terms).unwrap();
    let mut ctx = Context::default();
    ctx.postings.push(("new".to_string(), postings(vec![occ(1, 0, 0), occ(7, 0, 0)])));
    ctx.postings.push(("york".to_string(), postings(vec![occ(2, 0, 3), occ(7, 0, 1)])));
    ctx.postings.push(("newyork".to_string(), postings(vec![occ(7, 1, 0)])));
    ctx.postings.push(("bigapple".to_string(), postings(vec![occ(7, 2, 0)])));
    ctx.postings.push(("big".to_string(), postings(vec![occ(3, 0, 0), occ(8, 0, 0)])));
    ctx.postings.push(("apple".to_string(), postings(vec![occ(4, 0, 0), occ(8, 0, 1), occ(9, 0, 5)])));
    (set, ctx)
}

fn docs(set: &fst::Set<Vec<u8>>, ctx: &Context, query: &str) -> Vec<u32> {
    let tree = create_query_tree(ctx, query);
    traverse_query_tree(set, ctx, &tree).ok().unwrap().docids
}

fn tolerant(id: usize, prefix: bool, w: &str) -> Operation {
    Operation::Query(Query { id, prefix, kind: QueryKind::Tolerant(w.to_string()) })
}

fn exact(id: usize, prefix: bool, w: &str) -> Operation {
    Operation::Query(Query { id, prefix, kind: QueryKind::Exact(w.to_string()) })
}

fn leaves(op: &Operation, out: &mut Vec<usize>) {
    match op {
        Operation::And(cs) | Operation::Or(cs) => cs.iter().for_each(|c| leaves(c, out)),
        Operation::Query(q) => out.push(q.id),
    }
}

#[test]
fn new_york_tree_and_documents() {
    let (set, ctx) = fixture();
    let tree = create_query_tree(&ctx, "new york");
    let expected = Operation::Or(vec![
        Operation::And(vec![tolerant(0, false, "new"), tolerant(1, true, "york")]),
        exact(0, true, "newyork"),
    ]);
    assert_eq!(tree, expected);
    assert_eq!(docs(&set, &ctx, "new york"), vec![7]);
}

#[test]
fn big_apple_with_synonym_takes_both_branches() {
    let (set, mut ctx) = fixture();
    ctx.synonyms.push((
        vec!["big".to_string(), "apple".to_string()],
        vec![vec!["bigapple".to_string()]],
    ));
    let tree = create_query_tree(&ctx, "big apple");
    match &tree {
        Operation::Or(cs) => {
            assert_eq!(cs.len(), 2);
            assert_eq!(cs[0], Operation::And(vec![tolerant(0, false, "big"), tolerant(1, true, "apple")]));
            assert_eq!(cs[1], Operation::Or(vec![exact(0, false, "bigapple"), exact(0, true, "bigapple")]));
        },
        _ => panic!("root is not an Or"),
    }
    assert_eq!(docs(&set, &ctx, "big apple"), vec![7, 8]);
}

#[test]
fn newyork_is_split_into_a_phrase() {
    let (set, ctx) = fixture();
    let tree = create_query_tree(&ctx, "newyork");
    let phrase = Operation::Query(Query {
        id: 0,
        prefix: true,
        kind: QueryKind::Phrase(vec!["new".to_string(), "york".to_string()]),
    });
    assert_eq!(tree, Operation::Or(vec![tolerant(0, true, "newyork"), phrase]));
    assert_eq!(docs(&set, &ctx, "newyork"), vec![7]);
}

#[test]
fn phrase_alone_needs_adjacent_words() {
    let (set, ctx) = fixture();
    let phrase = Operation::Query(Query {
        id: 0,
        prefix: false,
        kind: QueryKind::Phrase(vec!["new".to_string(), "york".to_string()]),
    });
    assert_eq!(traverse_query_tree(&set, &ctx, &phrase).ok().unwrap().docids, vec![7]);
    let reversed = Operation::Query(Query {
        id: 0,
        prefix: false,
        kind: QueryKind::Phrase(vec!["york".to_string(), "new".to_string()]),
    });
    assert_eq!(traverse_query_tree(&set, &ctx, &reversed).ok().unwrap().docids, Vec::<u32>::new());
    let three = Operation::Query(Query {
        id: 0,
        prefix: false,
        kind: QueryKind::Phrase(vec!["new".to_string(), "york".to_string(), "big".to_string()]),
    });
    assert_eq!(traverse_query_tree(&set, &ctx, &three).ok().unwrap().docids, Vec::<u32>::new());
}

#[test]
fn empty_query_selects_nothing() {
    let (set, ctx) = fixture();
    let tree = create_query_tree(&ctx, "");
    assert_eq!(tree, Operation::Or(vec![]));
    assert_eq!(docs(&set, &ctx, ""), Vec::<u32>::new());
    assert_eq!(docs(&set, &ctx, "   "), Vec::<u32>::new());
}

#[test]
fn unknown_word_is_one_tolerant_leaf() {
    let (set, ctx) = fixture();
    let tree = create_query_tree(&ctx, "xyzzy");
    assert_eq!(tree, tolerant(0, true, "xyzzy"));
    assert_eq!(docs(&set, &ctx, "xyzzy"), Vec::<u32>::new());
}

#[test]
fn four_words_give_six_interpretations() {
    let ctx = Context::default();
    match create_query_tree(&ctx, "a b c d") {
        Operation::Or(cs) => assert_eq!(cs.len(), 6),
        _ => panic!("root is not an Or"),
    }
    match create_query_tree(&ctx, "a b c d e f") {
        Operation::Or(cs) => assert_eq!(cs.len(), 2 * 6 - 2),
        _ => panic!("root is not an Or"),
    }
    match create_query_tree(&ctx, "a b") {
        Operation::Or(cs) => assert_eq!(cs.len(), 2),
        _ => panic!("root is not an Or"),
    }
}

#[test]
fn leaf_ids_are_word_positions() {
    let ctx = Context::default();
    let tree = create_query_tree(&ctx, "one two three four five");
    let mut ids = Vec::new();
    leaves(&tree, &mut ids);
    assert!(!ids.is_empty());
    assert!(ids.iter().all(|&id| id < 5));
    for pos in 0..5 {
        assert!(ids.contains(&pos));
    }
}

#[test]
fn short_word_is_prefix_tolerant_with_no_typo() {
    let ctx = Context::default();
    assert_eq!(create_query_tree(&ctx, "abc"), tolerant(0, true, "abc"));
    assert_eq!(dfa_distance("abc"), 0);
    assert_eq!(dfa_distance("abcd"), 0);
}

#[test]
fn long_word_allows_two_typos() {
    let ctx = Context::default();
    assert_eq!(create_query_tree(&ctx, "abcdefghi"), tolerant(0, true, "abcdefghi"));
    assert_eq!(dfa_distance("abcdefghi"), 2);
    assert_eq!(dfa_distance("abcde"), 1);
    assert_eq!(dfa_distance("abcdefgh"), 1);
}

#[test]
fn typo_tolerance_reaches_close_terms() {
    let (set, ctx) = fixture();
    // "yorkk" has five characters: one edit allowed, and it is the last word
    assert_eq!(docs(&set, &ctx, "yorkk"), vec![2, 7]);
    // "newyorc" has seven characters: one edit reaches "newyork"
    let tree = tolerant(0, false, "newyorc");
    assert_eq!(traverse_query_tree(&set, &ctx, &tree).ok().unwrap().docids, vec![7]);
    // with no edit allowed, "yorc" matches nothing
    let tree = tolerant(0, false, "yorc");
    assert_eq!(traverse_query_tree(&set, &ctx, &tree).ok().unwrap().docids, Vec::<u32>::new());
}

#[test]
fn prefix_leaf_matches_extensions() {
    let (set, ctx) = fixture();
    let tree = tolerant(0, true, "big");
    assert_eq!(traverse_query_tree(&set, &ctx, &tree).ok().unwrap().docids, vec![3, 7, 8]);
    let tree = tolerant(0, false, "big");
    assert_eq!(traverse_query_tree(&set, &ctx, &tree).ok().unwrap().docids, vec![3, 8]);
    let terms = tolerant_terms(&set, "big", true).unwrap();
    assert_eq!(terms, vec![b"big".to_vec(), b"bigapple".to_vec()]);
}

#[test]
fn and_or_are_commutative_and_idempotent() {
    let (set, ctx) = fixture();
    let eval = |op: &Operation| traverse_query_tree(&set, &ctx, op).ok().unwrap().docids;
    let a = || exact(0, false, "apple");
    let b = || exact(0, false, "big");
    assert_eq!(eval(&Operation::And(vec![a(), b()])), vec![8]);
    assert_eq!(eval(&Operation::And(vec![b(), a()])), vec![8]);
    assert_eq!(eval(&Operation::Or(vec![a(), b()])), vec![3, 4, 8, 9]);
    assert_eq!(eval(&Operation::Or(vec![b(), a()])), vec![3, 4, 8, 9]);
    assert_eq!(eval(&Operation::Or(vec![a(), a()])), eval(&a()));
    assert_eq!(eval(&Operation::And(vec![a(), a()])), eval(&a()));
    assert_eq!(eval(&Operation::And(vec![])), Vec::<u32>::new());
}

#[test]
fn evaluating_twice_gives_the_same_result() {
    let (set, ctx) = fixture();
    let tree = create_query_tree(&ctx, "new york big");
    let first = traverse_query_tree(&set, &ctx, &tree).ok().unwrap().docids;
    let second = traverse_query_tree(&set, &ctx, &tree).ok().unwrap().docids;
    assert_eq!(first, second);
    assert!(first.windows(2).all(|w| w[0] < w[1]));
}

#[test]
fn result_is_strictly_ascending() {
    let (set, ctx) = fixture();
    for q in ["apple big", "york new", "big", "new york apple", "bigapple newyork"] {
        let d = docs(&set, &ctx, q);
        assert!(d.windows(2).all(|w| w[0] < w[1]), "{}", q);
    }
}

#[test]
fn automaton_error_is_the_only_failure() {
    let (set, ctx) = fixture();
    let tree = tolerant(0, true, "apple");
    let res = traverse_query_tree(&set, &ctx, &tree);
    assert!(res.is_ok());
    let e = QueryError::AutomatonTooLarge;
    assert_eq!(e, QueryError::AutomatonTooLarge);
}

#[test]
fn tokenize_lowercases_and_numbers_words() {
    let words = tokenize("  New\tYORK  city ");
    assert_eq!(words, vec![(0, "new".to_string()), (1, "york".to_string()), (2, "city".to_string())]);
    assert_eq!(tokenize(""), vec![]);
    assert_eq!(tokenize(" \n "), vec![]);
}

#[test]
fn whitespace_detection() {
    assert!(contains_whitespace("a b"));
    assert!(contains_whitespace("\u{3000}"));
    assert!(!contains_whitespace("ab"));
    assert!(!contains_whitespace(""));
}

#[test]
fn best_split_prefers_balanced_frequent_halves() {
    let (_, mut ctx) = fixture();
    assert_eq!(split_best_frequency(&ctx, "newyork"), Some(("new", "york")));
    assert_eq!(split_best_frequency(&ctx, "bigapple"), Some(("big", "apple")));
    assert_eq!(split_best_frequency(&ctx, "xyzzy"), None);
    assert_eq!(split_best_frequency(&ctx, "new"), None);
    assert_eq!(split_best_frequency(&ctx, ""), None);
    // "ne" occurs three times and "wyork" once: score 1, lower than 2
    ctx.postings.push(("ne".to_string(), postings(vec![occ(1, 0, 0), occ(2, 0, 0), occ(3, 0, 0)])));
    ctx.postings.push(("wyork".to_string(), postings(vec![occ(5, 0, 0)])));
    assert_eq!(split_best_frequency(&ctx, "newyork"), Some(("new", "york")));
}

#[test]
fn best_split_ties_go_to_the_earliest_cut() {
    let mut ctx = Context::default();
    for w in ["a", "bc", "ab", "c"] {
        ctx.postings.push((w.to_string(), postings(vec![occ(1, 0, 0)])));
    }
    assert_eq!(split_best_frequency(&ctx, "abc"), Some(("a", "bc")));
}

#[test]
fn synonyms_are_found_by_exact_word_list() {
    let mut ctx = Context::default();
    ctx.synonyms.push((vec!["ny".to_string()], vec![vec!["new".to_string(), "york".to_string()]]));
    let found = fetch_synonyms(&ctx, &vec!["ny".to_string()]).unwrap();
    assert_eq!(found, &vec![vec!["new".to_string(), "york".to_string()]]);
    assert!(fetch_synonyms(&ctx, &vec!["nyc".to_string()]).is_none());
    assert!(fetch_synonyms(&ctx, &vec!["ny".to_string(), "ny".to_string()]).is_none());
}

#[test]
fn single_word_synonym_becomes_an_and_of_exact_leaves() {
    let mut ctx = Context::default();
    ctx.synonyms.push((vec!["ny".to_string()], vec![vec!["new".to_string(), "york".to_string()]]));
    let tree = create_query_tree(&ctx, "ny");
    let expected = Operation::Or(vec![
        tolerant(0, true, "ny"),
        Operation::And(vec![exact(0, false, "new"), exact(0, false, "york")]),
    ]);
    assert_eq!(tree, expected);
}

#[test]
fn postings_lookup_by_bytes() {
    let (_, ctx) = fixture();
    let pl = ctx.postings_list(b"apple").unwrap();
    assert_eq!(pl.docids, vec![4, 8, 9]);
    assert!(ctx.postings_list(b"appl").is_none());
    assert!(bytes_equal(b"abc", b"abc"));
    assert!(!bytes_equal(b"abc", b"abd"));
    assert!(!bytes_equal(b"abc", b"ab"));
}

#[test]
fn union_sorts_and_deduplicates() {
    let sets = vec![vec![3, 9], vec![], vec![1, 3, 4]];
    assert_eq!(union_all(&sets), vec![1, 3, 4, 9]);
    assert_eq!(union_all(&vec![]), Vec::<u32>::new());
}

#[test]
fn phrase_order_compares_shifted_positions() {
    assert_eq!(phrase_order(&occ(7, 0, 0), &occ(7, 0, 1)), Ordering::Equal);
    assert_eq!(phrase_order(&occ(7, 0, 1), &occ(7, 0, 1)), Ordering::Greater);
    assert_eq!(phrase_order(&occ(7, 0, 0), &occ(7, 0, 2)), Ordering::Less);
    assert_eq!(phrase_order(&occ(6, 0, 9), &occ(7, 0, 0)), Ordering::Less);
    assert_eq!(phrase_order(&occ(7, 1, 0), &occ(7, 0, 1)), Ordering::Greater);
    assert_eq!(phrase_order(&occ(7, 0, u16::MAX), &occ(7, 0, u16::MAX)), Ordering::Greater);
    assert_eq!(phrase_order(&occ(7, 0, u16::MAX - 1), &occ(7, 0, u16::MAX)), Ordering::Equal);
}

#[test]
fn is_last_flags_only_the_final_item() {
    assert_eq!(is_last(vec!['a', 'b', 'c']), vec![(false, 'a'), (false, 'b'), (true, 'c')]);
    assert_eq!(is_last(Vec::<u8>::new()), vec![]);
}

#[test]
fn create_operation_collapses_single_children() {
    let one = create_operation(vec![exact(0, false, "a")], Operation::And);
    assert_eq!(one, exact(0, false, "a"));
    let two = create_operation(vec![exact(0, false, "a"), exact(1, false, "b")], Operation::Or);
    assert_eq!(two, Operation::Or(vec![exact(0, false, "a"), exact(1, false, "b")]));
}

#[test]
fn query_constructors() {
    assert_eq!(Query::tolerant(2, true, "x"), Query { id: 2, prefix: true, kind: QueryKind::Tolerant("x".to_string()) });
    assert_eq!(Query::exact(1, false, "y"), Query { id: 1, prefix: false, kind: QueryKind::Exact("y".to_string()) });
    assert_eq!(
        Query::phrase2(0, false, ("a", "b")),
        Query { id: 0, prefix: false, kind: QueryKind::Phrase(vec!["a".to_string(), "b".to_string()]) }
    );
}

#[test]
fn oversized_automaton_is_reported() {
    let (set, ctx) = fixture();
    let word: String = (0..2000u32).map(|i| char::from(b'a' + (i * 7 % 26) as u8)).collect();
    let tree = Operation::Or(vec![exact(0, false, "apple"), tolerant(1, false, &word)]);
    match traverse_query_tree(&set, &ctx, &tree) {
        Err(e) => assert_eq!(e, QueryError::AutomatonTooLarge),
        Ok(_) => panic!("the automaton fit"),
    }
}
