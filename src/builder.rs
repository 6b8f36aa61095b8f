//! Building the query tree: every grouping of the words into n-grams, each
//! group with its alternatives.
use vstd::prelude::*;
use vstd::string::*;
use crate::index::{phrase_views, string_views, term_bytes, Context};
use crate::operation::{
    and_view, create_operation, leaf_view, lemma_ops_view_len, lemma_ops_view_push, lemma_ops_view_single, op_view,
    ops_view, or_view, KindView, OpView, Operation, Query,
};
use crate::tokenizer::{has_whitespace, is_run_split, lower_of, token_words, tokenize};

verus! {

/// The smaller occurrence count of the two halves of `w` cut before character `i`.
pub open spec fn split_score(ctx: Context, w: Seq<char>, i: int) -> nat {
    let l = ctx.frequency(term_bytes(w.subrange(0, i)));
    let r = ctx.frequency(term_bytes(w.subrange(i, w.len() as int)));
    if l < r { l } else { r }
}

/// Cutting before character `i` scores highest, above every earlier cut, and
/// both halves occur.
pub open spec fn is_best_split(ctx: Context, w: Seq<char>, i: int) -> bool {
    &&& 1 <= i < w.len()
    &&& split_score(ctx, w, i) > 0
    &&& forall|j: int| 1 <= j < w.len() ==> #[trigger] split_score(ctx, w, j) <= split_score(ctx, w, i)
    &&& forall|j: int| 1 <= j < i ==> #[trigger] split_score(ctx, w, j) < split_score(ctx, w, i)
}

/// Number of occurrences of a term in the index; zero where it is absent.
fn frequency(ctx: &Context, term: &str) -> (r: usize)
    requires
        ctx.wf(),
    ensures
        r == ctx.frequency(term_bytes(term@)),
{
    match ctx.postings_list(term.as_bytes()) {
        Some(pl) => pl.matches.len(),
        None => 0,
    }
}

/// The cut of `word` into two terms of the index whose smaller occurrence count
/// is greatest, the earliest such cut on ties; `None` where no cut leaves two
/// terms that occur.
pub fn split_best_frequency<'a>(ctx: &Context, word: &'a str) -> (r: Option<(&'a str, &'a str)>)
    requires
        ctx.wf(),
    ensures
        r is None <==> forall|i: int| 1 <= i < word@.len() ==> #[trigger] split_score(*ctx, word@, i) == 0,
        r matches Some(p) ==> exists|i: int| #[trigger] is_best_split(*ctx, word@, i)
            && p.0@ == word@.subrange(0, i) && p.1@ == word@.subrange(i, word@.len() as int),
{
    let n = word.unicode_len();
    let mut best: Option<(usize, usize)> = None;
    let mut i: usize = 1;
    while i < n
        invariant
            ctx.wf(),
            n == word@.len(),
            1 <= i,
            i <= n || n == 0,
            best is None ==> forall|j: int| 1 <= j < i ==> #[trigger] split_score(*ctx, word@, j) == 0,
            best matches Some(b) ==> {
                &&& 1 <= b.1 < i
                &&& b.1 < n
                &&& b.0 == split_score(*ctx, word@, b.1 as int)
                &&& b.0 > 0
                &&& forall|j: int| 1 <= j < i ==> #[trigger] split_score(*ctx, word@, j) <= b.0
                &&& forall|j: int| 1 <= j < b.1 ==> #[trigger] split_score(*ctx, word@, j) < b.0
            },
        decreases n - i,
    {
        let left = word.substring_char(0, i);
        let right = word.substring_char(i, n);
        let lf = frequency(ctx, left);
        let rf = frequency(ctx, right);
        let m = if lf < rf { lf } else { rf };
        assert(m == split_score(*ctx, word@, i as int));
        let better = match best {
            None => m != 0,
            Some(b) => m > b.0,
        };
        if better {
            best = Some((m, i));
        }
        i = i + 1;
    }
    match best {
        None => None,
        Some(b) => {
            let left = word.substring_char(0, b.1);
            let right = word.substring_char(b.1, n);
            assert(is_best_split(*ctx, word@, b.1 as int));
            Some((left, right))
        },
    }
}

/// Whether two word lists hold the same words.
pub(crate) fn same_words(a: &Vec<String>, b: &Vec<String>) -> (r: bool)
    ensures
        r == (string_views(a@) == string_views(b@)),
{
    if a.len() != b.len() {
        assert(string_views(a@).len() != string_views(b@).len());
        return false;
    }
    let mut i: usize = 0;
    while i < a.len()
        invariant
            a.len() == b.len(),
            i <= a.len(),
            forall|j: int| 0 <= j < i ==> (#[trigger] a[j])@ == b[j]@,
        decreases a.len() - i,
    {
        if a[i] != b[i] {
            assert(string_views(a@)[i as int] != string_views(b@)[i as int]);
            return false;
        }
        i = i + 1;
    }
    assert(string_views(a@) =~= string_views(b@));
    true
}

/// The synonym lists that the index records for a word list.
pub fn fetch_synonyms<'a>(ctx: &'a Context, words: &Vec<String>) -> (r: Option<&'a Vec<Vec<String>>>)
    requires
        ctx.wf(),
    ensures
        r is None ==> ctx.synonyms_of(string_views(words@)) == Seq::<Seq<Seq<char>>>::empty(),
        r matches Some(s) ==> phrase_views(s@) == ctx.synonyms_of(string_views(words@)),
{
    let ghost ws = string_views(words@);
    let mut i: usize = 0;
    while i < ctx.synonyms.len()
        invariant
            ctx.wf(),
            ws == string_views(words@),
            i <= ctx.synonyms.len(),
            forall|j: int| 0 <= j < i ==> string_views((#[trigger] ctx.synonyms[j]).0@) != ws,
        decreases ctx.synonyms.len() - i,
    {
        if same_words(&ctx.synonyms[i].0, words) {
            proof {
                let k = choose|k: int| 0 <= k < ctx.synonyms.len()
                    && string_views((#[trigger] ctx.synonyms[k]).0@) == ws;
                if k != i {
                    if k < i {
                        assert(string_views(ctx.synonyms[k].0@) != ws);
                    } else {
                        assert(string_views(ctx.synonyms[i as int].0@) != string_views(ctx.synonyms[k].0@));
                    }
                }
            }
            return Some(&ctx.synonyms[i].1);
        }
        i = i + 1;
    }
    None
}

/// Longest run of words that one group may hold.
pub const MAX_NGRAM: usize = 3;

/// Every leaf of the tree carries an id below `n`.
pub open spec fn ids_below(op: Operation, n: nat) -> bool
    decreases op,
{
    match op {
        Operation::And(cs) => all_ids_below(cs@, n),
        Operation::Or(cs) => all_ids_below(cs@, n),
        Operation::Query(q) => q.id < n,
    }
}

/// Every leaf of every tree of the sequence carries an id below `n`.
pub open spec fn all_ids_below(cs: Seq<Operation>, n: nat) -> bool
    decreases cs,
{
    if cs.len() == 0 {
        true
    } else {
        all_ids_below(cs.drop_last(), n) && ids_below(cs.last(), n)
    }
}

/// Appending a tree keeps the ids below `n` if its own are.
proof fn lemma_ids_push(cs: Seq<Operation>, x: Operation, n: nat)
    ensures
        all_ids_below(cs.push(x), n) == (all_ids_below(cs, n) && ids_below(x, n)),
{
    assert(cs.push(x).drop_last() =~= cs);
}

/// A single tree's ids.
proof fn lemma_ids_single(cs: Seq<Operation>, n: nat)
    requires
        cs.len() == 1,
    ensures
        all_ids_below(cs, n) == ids_below(cs[0], n),
{
    reveal_with_fuel(all_ids_below, 2);
    assert(cs.drop_last() =~= Seq::<Operation>::empty());
}

/// Interpretations with one group of `g` words among `n`: every start for
/// `g > 1`, the single all-singletons one for `g == 1`, none where `g > n`.
pub open spec fn ngram_count(g: nat, n: nat) -> nat {
    if g > n {
        0
    } else if g == 1 {
        1
    } else {
        (n - g + 1) as nat
    }
}

/// Interpretations with groups shorter than `g`.
pub open spec fn counted_before(g: nat, n: nat) -> nat
    decreases g,
{
    if g <= 1 {
        0
    } else {
        counted_before((g - 1) as nat, n) + ngram_count((g - 1) as nat, n)
    }
}

/// Interpretations of a query of `n` words.
pub open spec fn interpretation_count(n: nat) -> nat {
    ngram_count(1, n) + ngram_count(2, n) + ngram_count(3, n)
}

/// An exact leaf.
pub open spec fn exact_leaf(id: nat, prefix: bool, w: Seq<char>) -> OpView {
    leaf_view(id, prefix, KindView::Exact(w))
}

/// One synonym list as the `And` of its words as exact leaves.
pub open spec fn synonym_view(id: nat, words: Seq<Seq<char>>) -> OpView {
    and_view(words.map_values(|w: Seq<char>| exact_leaf(id, false, w)))
}

/// Each synonym list as the `And` of its words as exact leaves.
pub open spec fn synonym_views(id: nat, lists: Seq<Seq<Seq<char>>>) -> Seq<OpView> {
    lists.map_values(|l: Seq<Seq<char>>| synonym_view(id, l))
}

/// Where the best cut of `w` falls, if it has one.
pub open spec fn best_split(ctx: Context, w: Seq<char>) -> Option<int> {
    if exists|i: int| is_best_split(ctx, w, i) {
        Some(choose|i: int| is_best_split(ctx, w, i))
    } else {
        None
    }
}

/// There is at most one best cut.
pub proof fn lemma_best_split_unique(ctx: Context, w: Seq<char>, i: int, j: int)
    requires
        is_best_split(ctx, w, i),
        is_best_split(ctx, w, j),
    ensures
        i == j,
{
    if i < j {
        assert(split_score(ctx, w, i) < split_score(ctx, w, j));
        assert(split_score(ctx, w, j) <= split_score(ctx, w, i));
    } else if j < i {
        assert(split_score(ctx, w, j) < split_score(ctx, w, i));
        assert(split_score(ctx, w, i) <= split_score(ctx, w, j));
    }
}

/// The phrase of the best cut of a word, if it has one.
pub open spec fn split_views(ctx: Context, id: nat, last: bool, w: Seq<char>) -> Seq<OpView> {
    match best_split(ctx, w) {
        Some(i) => seq![leaf_view(id, last, KindView::Phrase(seq![w.subrange(0, i), w.subrange(i, w.len() as int)]))],
        None => Seq::empty(),
    }
}

/// The `Or` of the alternatives of the group of `len` words from `start`.
pub open spec fn group_view(ctx: Context, words: Seq<Seq<char>>, start: int, len: int, last: bool) -> OpView {
    let id = start as nat;
    if len == 1 {
        let w = words[start];
        or_view(seq![leaf_view(id, last, KindView::Tolerant(w))] + synonym_views(id, ctx.synonyms_of(seq![w]))
            + split_views(ctx, id, last, w))
    } else {
        let ws = words.subrange(start, start + len);
        or_view(synonym_views(id, ctx.synonyms_of(ws)).push(exact_leaf(id, last, ws.flatten())))
    }
}

/// Start and length of the `k`-th group where the group of `g` words starts at `i`.
pub open spec fn group_at(i: int, g: int, k: int) -> (int, int) {
    if k < i {
        (k, 1)
    } else if k == i {
        (i, g)
    } else {
        (k + g - 1, 1)
    }
}

/// The `And` of the groups of one interpretation.
pub open spec fn interpretation_view(ctx: Context, words: Seq<Seq<char>>, i: int, g: int) -> OpView {
    let count = words.len() - g + 1;
    and_view(Seq::new(count as nat, |k: int|
        group_view(ctx, words, group_at(i, g, k).0, group_at(i, g, k).1, k == count - 1)))
}

/// The interpretations with a group of `g` words.
pub open spec fn ngram_views(ctx: Context, words: Seq<Seq<char>>, g: int) -> Seq<OpView> {
    if g > words.len() {
        Seq::empty()
    } else if g == 1 {
        seq![interpretation_view(ctx, words, 0, 1)]
    } else {
        Seq::new((words.len() - g + 1) as nat, |i: int| interpretation_view(ctx, words, i, g))
    }
}

/// The interpretations with groups shorter than `g`.
pub open spec fn views_before(ctx: Context, words: Seq<Seq<char>>, g: int) -> Seq<OpView>
    decreases g,
{
    if g <= 1 {
        Seq::empty()
    } else {
        views_before(ctx, words, g - 1) + ngram_views(ctx, words, g - 1)
    }
}

/// The query tree of a sequence of words.
pub open spec fn tree_view(ctx: Context, words: Seq<Seq<char>>) -> OpView {
    or_view(ngram_views(ctx, words, 1) + ngram_views(ctx, words, 2) + ngram_views(ctx, words, 3))
}

/// `And` of the operations, or the one operation itself.
fn and_of(ops: Vec<Operation>, n: usize) -> (r: Operation)
    requires
        all_ids_below(ops@, n as nat),
    ensures
        ids_below(r, n as nat),
        op_view(r) == and_view(ops_view(ops@)),
{
    proof {
        lemma_ops_view_len(ops@);
        if ops.len() == 1 {
            lemma_ids_single(ops@, n as nat);
            lemma_ops_view_single(ops@);
        }
    }
    create_operation(ops, |v: Vec<Operation>| -> (o: Operation)
        ensures
            o == Operation::And(v),
        { Operation::And(v) })
}

/// `Or` of the operations, or the one operation itself.
fn or_of(ops: Vec<Operation>, n: usize) -> (r: Operation)
    requires
        all_ids_below(ops@, n as nat),
    ensures
        ids_below(r, n as nat),
        op_view(r) == or_view(ops_view(ops@)),
        ops.len() != 1 ==> r == Operation::Or(ops),
{
    proof {
        lemma_ops_view_len(ops@);
        if ops.len() == 1 {
            lemma_ids_single(ops@, n as nat);
            lemma_ops_view_single(ops@);
        }
    }
    create_operation(ops, |v: Vec<Operation>| -> (o: Operation)
        ensures
            o == Operation::Or(v),
        { Operation::Or(v) })
}

/// Appends, for each synonym list, the `And` of its words as exact leaves.
fn push_synonyms(id: usize, synonyms: &Vec<Vec<String>>, alts: &mut Vec<Operation>, n: usize)
    requires
        id < n,
        all_ids_below(old(alts)@, n as nat),
    ensures
        all_ids_below(final(alts)@, n as nat),
        ops_view(final(alts)@) == ops_view(old(alts)@) + synonym_views(id as nat, phrase_views(synonyms@)),
{
    let ghost sv = synonym_views(id as nat, phrase_views(synonyms@));
    let mut k: usize = 0;
    while k < synonyms.len()
        invariant
            id < n,
            k <= synonyms.len(),
            sv == synonym_views(id as nat, phrase_views(synonyms@)),
            all_ids_below(alts@, n as nat),
            ops_view(alts@) == ops_view(old(alts)@) + sv.subrange(0, k as int),
        decreases synonyms.len() - k,
    {
        let words = &synonyms[k];
        let ghost wv = string_views(words@);
        let mut leaves: Vec<Operation> = Vec::new();
        let mut j: usize = 0;
        while j < words.len()
            invariant
                id < n,
                j <= words.len(),
                wv == string_views(words@),
                all_ids_below(leaves@, n as nat),
                ops_view(leaves@) == wv.subrange(0, j as int).map_values(|w: Seq<char>| exact_leaf(id as nat, false, w)),
            decreases words.len() - j,
        {
            let leaf = Operation::Query(Query::exact(id, false, words[j].as_str()));
            proof {
                lemma_ids_push(leaves@, leaf, n as nat);
                lemma_ops_view_push(leaves@, leaf);
                assert(wv.subrange(0, j + 1).map_values(|w: Seq<char>| exact_leaf(id as nat, false, w))
                    =~= wv.subrange(0, j as int).map_values(|w: Seq<char>| exact_leaf(id as nat, false, w))
                        .push(exact_leaf(id as nat, false, wv[j as int])));
            }
            leaves.push(leaf);
            j = j + 1;
        }
        assert(wv.subrange(0, words.len() as int) =~= wv);
        let op = and_of(leaves, n);
        proof {
            lemma_ids_push(alts@, op, n as nat);
            lemma_ops_view_push(alts@, op);
            assert(phrase_views(synonyms@)[k as int] == wv);
            assert(sv.subrange(0, k + 1) =~= sv.subrange(0, k as int).push(op_view(op)));
        }
        alts.push(op);
        k = k + 1;
    }
    assert(sv.subrange(0, synonyms.len() as int) =~= sv);
}

/// The alternatives of the group of `len` words from `start`: for one word, it
/// tolerantly, its synonyms and its best split; for several, their synonyms
/// and their concatenation, exactly.
fn group_alternatives(ctx: &Context, words: &Vec<(usize, String)>, start: usize, len: usize, last: bool) -> (r: Operation)
    requires
        ctx.wf(),
        1 <= len,
        start + len <= words.len(),
        forall|i: int| 0 <= i < words.len() ==> (#[trigger] words[i]).0 == i,
    ensures
        ids_below(r, words.len() as nat),
        op_view(r) == group_view(*ctx, token_words(words@), start as int, len as int, last),
{
    let ghost tw = token_words(words@);
    let n = words.len();
    let id = words[start].0;
    let mut alts: Vec<Operation> = Vec::new();
    if len == 1 {
        let word = words[start].1.as_str();
        let leaf = Operation::Query(Query::tolerant(id, last, word));
        proof {
            lemma_ids_push(alts@, leaf, n as nat);
            lemma_ops_view_push(alts@, leaf);
        }
        alts.push(leaf);
        let ghost after_tolerant = ops_view(alts@);
        let key = vec![words[start].1.clone()];
        assert(string_views(key@) =~= seq![tw[start as int]]);
        match fetch_synonyms(ctx, &key) {
            Some(synonyms) => push_synonyms(id, synonyms, &mut alts, n),
            None => {},
        }
        assert(ops_view(alts@) =~= after_tolerant + synonym_views(id as nat, ctx.synonyms_of(seq![tw[start as int]])));
        let ghost after_synonyms = ops_view(alts@);
        match split_best_frequency(ctx, word) {
            Some(halves) => {
                let leaf = Operation::Query(Query::phrase2(id, last, halves));
                proof {
                    let i = choose|i: int| #[trigger] is_best_split(*ctx, word@, i)
                        && halves.0@ == word@.subrange(0, i) && halves.1@ == word@.subrange(i, word@.len() as int);
                    let c = choose|c: int| is_best_split(*ctx, word@, c);
                    lemma_best_split_unique(*ctx, word@, i, c);
                    lemma_ids_push(alts@, leaf, n as nat);
                    lemma_ops_view_push(alts@, leaf);
                    assert(op_view(leaf) == leaf_view(id as nat, last, KindView::Phrase(seq![halves.0@, halves.1@])));
                }
                alts.push(leaf);
            },
            None => {},
        }
        assert(ops_view(alts@) =~= after_synonyms + split_views(*ctx, id as nat, last, tw[start as int]));
    } else {
        let mut key: Vec<String> = Vec::new();
        let mut joined = String::new();
        let mut k: usize = start;
        while k < start + len
            invariant
                start + len <= words.len(),
                start <= k <= start + len,
                tw == token_words(words@),
                string_views(key@) == tw.subrange(start as int, k as int),
                joined@ == tw.subrange(start as int, k as int).flatten(),
            decreases start + len - k,
        {
            proof {
                assert(tw.subrange(start as int, k + 1) =~= tw.subrange(start as int, k as int).push(tw[k as int]));
                tw.subrange(start as int, k as int).lemma_flatten_push(tw[k as int]);
            }
            let ghost before = key@;
            key.push(words[k].1.clone());
            assert(string_views(key@) =~= string_views(before).push(tw[k as int]));
            joined.append(words[k].1.as_str());
            k = k + 1;
        }
        match fetch_synonyms(ctx, &key) {
            Some(synonyms) => push_synonyms(id, synonyms, &mut alts, n),
            None => {},
        }
        let ghost after_synonyms = ops_view(alts@);
        assert(after_synonyms =~= synonym_views(id as nat, ctx.synonyms_of(tw.subrange(start as int, (start + len) as int))));
        let leaf = Operation::Query(Query::exact(id, last, joined.as_str()));
        proof {
            lemma_ids_push(alts@, leaf, n as nat);
            lemma_ops_view_push(alts@, leaf);
        }
        alts.push(leaf);
    }
    or_of(alts, n)
}

/// One interpretation: the `g` words from `i` form one group, every other word
/// its own; the groups' alternatives are combined with `And`, and only the
/// last group's leaves may match a prefix.
fn interpretation(ctx: &Context, words: &Vec<(usize, String)>, i: usize, g: usize) -> (r: Operation)
    requires
        ctx.wf(),
        1 <= g,
        i + g <= words.len(),
        forall|k: int| 0 <= k < words.len() ==> (#[trigger] words[k]).0 == k,
    ensures
        ids_below(r, words.len() as nat),
        op_view(r) == interpretation_view(*ctx, token_words(words@), i as int, g as int),
{
    let ghost tw = token_words(words@);
    let n = words.len();
    let count = n - g + 1;
    let ghost target = Seq::new(count as nat, |k: int|
        group_view(*ctx, tw, group_at(i as int, g as int, k).0, group_at(i as int, g as int, k).1, k == count - 1));
    let mut ops: Vec<Operation> = Vec::new();
    let mut k: usize = 0;
    while k < count
        invariant
            ctx.wf(),
            n == words.len(),
            count == n - g + 1,
            1 <= g,
            i + g <= n,
            tw == token_words(words@),
            target == Seq::new(count as nat, |k: int|
                group_view(*ctx, tw, group_at(i as int, g as int, k).0, group_at(i as int, g as int, k).1, k == count - 1)),
            forall|j: int| 0 <= j < words.len() ==> (#[trigger] words[j]).0 == j,
            k <= count,
            all_ids_below(ops@, n as nat),
            ops_view(ops@) == target.subrange(0, k as int),
        decreases count - k,
    {
        let (start, len) = if k < i {
            (k, 1)
        } else if k == i {
            (i, g)
        } else {
            (k + g - 1, 1)
        };
        let op = group_alternatives(ctx, words, start, len, k + 1 == count);
        proof {
            lemma_ids_push(ops@, op, n as nat);
            lemma_ops_view_push(ops@, op);
            assert(target.subrange(0, k + 1) =~= target.subrange(0, k as int).push(op_view(op)));
        }
        ops.push(op);
        k = k + 1;
    }
    assert(target.subrange(0, count as int) =~= target);
    and_of(ops, n)
}

/// The query tree of a query: the `Or` of all its interpretations, with
/// groups of one word first, then every pair, then every triple.
pub fn create_query_tree(ctx: &Context, query: &str) -> (r: Operation)
    requires
        ctx.wf(),
    ensures
        exists|runs: Seq<Seq<char>>| #[trigger] is_run_split(lower_of(query@), runs) && {
            let words = runs.filter(|w: Seq<char>| !has_whitespace(w));
            let n = words.len();
            &&& op_view(r) == tree_view(*ctx, words)
            &&& ids_below(r, n)
            &&& interpretation_count(n) != 1 ==> (r matches Operation::Or(cs)
                && cs.len() == interpretation_count(n))
        },
{
    let words = tokenize(query);
    let ghost tw = token_words(words@);
    let n = words.len();
    let mut ngrams: Vec<Operation> = Vec::new();
    let mut g: usize = 1;
    while g <= MAX_NGRAM
        invariant
            ctx.wf(),
            n == words.len(),
            tw == token_words(words@),
            forall|k: int| 0 <= k < words.len() ==> (#[trigger] words[k]).0 == k,
            1 <= g <= MAX_NGRAM + 1,
            ngrams.len() == counted_before(g as nat, n as nat),
            all_ids_below(ngrams@, n as nat),
            ops_view(ngrams@) == views_before(*ctx, tw, g as int),
        decreases MAX_NGRAM + 1 - g,
    {
        let ghost before = ops_view(ngrams@);
        if g <= n {
            let last_start = if g == 1 { 0 } else { n - g };
            let ghost base = ngrams.len();
            let mut i: usize = 0;
            while i <= last_start
                invariant
                    ctx.wf(),
                    n == words.len(),
                    tw == token_words(words@),
                    forall|k: int| 0 <= k < words.len() ==> (#[trigger] words[k]).0 == k,
                    1 <= g <= n,
                    last_start + g <= n,
                    g == 1 ==> last_start == 0,
                    g != 1 ==> last_start == n - g,
                    i <= last_start + 1,
                    ngrams.len() == base + i,
                    all_ids_below(ngrams@, n as nat),
                    ops_view(ngrams@) == before + Seq::new(i as nat, |j: int| interpretation_view(*ctx, tw, j, g as int)),
                decreases last_start + 1 - i,
            {
                let op = interpretation(ctx, &words, i, g);
                proof {
                    lemma_ids_push(ngrams@, op, n as nat);
                    lemma_ops_view_push(ngrams@, op);
                    assert(before + Seq::new((i + 1) as nat, |j: int| interpretation_view(*ctx, tw, j, g as int))
                        =~= (before + Seq::new(i as nat, |j: int| interpretation_view(*ctx, tw, j, g as int))).push(op_view(op)));
                }
                ngrams.push(op);
                i = i + 1;
            }
            assert(Seq::new(i as nat, |j: int| interpretation_view(*ctx, tw, j, g as int)) =~= ngram_views(*ctx, tw, g as int));
        } else {
            assert(ngram_views(*ctx, tw, g as int) =~= Seq::<OpView>::empty());
            assert(before + ngram_views(*ctx, tw, g as int) =~= before);
        }
        g = g + 1;
    }
    proof {
        reveal_with_fuel(counted_before, 4);
        reveal_with_fuel(views_before, 4);
        assert(views_before(*ctx, tw, 4) =~= ngram_views(*ctx, tw, 1) + ngram_views(*ctx, tw, 2) + ngram_views(*ctx, tw, 3));
    }
    assert(ngrams.len() == interpretation_count(n as nat));
    let r = or_of(ngrams, n);
    proof {
        let runs = choose|runs: Seq<Seq<char>>| is_run_split(lower_of(query@), runs)
            && token_words(words@) == runs.filter(|w: Seq<char>| !has_whitespace(w));
        assert(token_words(words@).len() == n);
    }
    r
}

/// A query of more than three words has `1 + (n - 1) + (n - 2) = 2n - 2`
/// interpretations.
pub proof fn lemma_interpretation_count(n: nat)
    requires
        n > 3,
    ensures
        interpretation_count(n) == 2 * n - 2,
{
}

/// Whatever the number of words, there are at most `1 + (n - 1) + (n - 2)`
/// interpretations, and one at least for a query with words.
pub proof fn lemma_interpretation_bound(n: nat)
    ensures
        interpretation_count(n) <= 1 + (if n >= 2 { n - 1 } else { 0 }) + (if n >= 3 { n - 2 } else { 0 }),
        n > 0 ==> interpretation_count(n) >= 1,
        n == 0 ==> interpretation_count(n) == 0,
{
}

} // verus!
