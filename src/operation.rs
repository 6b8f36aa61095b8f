//! The query tree: leaves that match terms, combined by `And` and `Or`.
use vstd::prelude::*;
use crate::index::string_views;

verus! {

/// Identifies the word slot of the original query that a leaf stands for.
pub type QueryId = usize;

/// How a leaf matches dictionary terms.
#[derive(PartialEq, Eq, PartialOrd, Ord, Hash, Debug, Clone)]
pub enum QueryKind {
    /// Within an edit distance that depends on the word's length.
    Tolerant(String),
    /// The word itself.
    Exact(String),
    /// Words that follow one another in the same attribute.
    Phrase(Vec<String>),
}

/// A leaf of the query tree.
#[derive(PartialEq, Eq, PartialOrd, Ord, Hash, Debug, Clone)]
pub struct Query {
    pub id: QueryId,
    pub prefix: bool,
    pub kind: QueryKind,
}

/// A node of the query tree.
#[derive(PartialEq, Eq, Hash, Debug)]
pub enum Operation {
    And(Vec<Operation>),
    Or(Vec<Operation>),
    Query(Query),
}

impl QueryKind {
    /// The single word of a `Tolerant` or `Exact` leaf.
    pub open spec fn word(self) -> Seq<char> {
        match self {
            QueryKind::Tolerant(w) => w@,
            QueryKind::Exact(w) => w@,
            QueryKind::Phrase(_) => Seq::empty(),
        }
    }

    /// The words of a `Phrase` leaf.
    pub open spec fn phrase_words(self) -> Seq<Seq<char>> {
        match self {
            QueryKind::Phrase(ws) => string_views(ws@),
            _ => Seq::empty(),
        }
    }
}

impl Query {
    pub fn tolerant(id: QueryId, prefix: bool, s: &str) -> (r: Query)
        ensures
            r.id == id,
            r.prefix == prefix,
            r.kind is Tolerant,
            r.kind.word() == s@,
    {
        Query { id, prefix, kind: QueryKind::Tolerant(s.to_owned()) }
    }

    pub fn exact(id: QueryId, prefix: bool, s: &str) -> (r: Query)
        ensures
            r.id == id,
            r.prefix == prefix,
            r.kind is Exact,
            r.kind.word() == s@,
    {
        Query { id, prefix, kind: QueryKind::Exact(s.to_owned()) }
    }

    pub fn phrase2(id: QueryId, prefix: bool, words: (&str, &str)) -> (r: Query)
        ensures
            r.id == id,
            r.prefix == prefix,
            r.kind is Phrase,
            r.kind.phrase_words() == seq![words.0@, words.1@],
    {
        let (left, right) = words;
        let ws = vec![left.to_owned(), right.to_owned()];
        let r = Query { id, prefix, kind: QueryKind::Phrase(ws) };
        assert(r.kind.phrase_words() =~= seq![words.0@, words.1@]);
        r
    }
}

/// Pairs each item with whether it is the last one.
pub fn is_last<T>(items: Vec<T>) -> (r: Vec<(bool, T)>)
    ensures
        r.len() == items.len(),
        forall|i: int| 0 <= i < r.len() ==> #[trigger] r[i] == (i == items.len() - 1, items[i]),
{
    let n = items.len();
    let mut out: Vec<(bool, T)> = Vec::new();
    let ghost orig = items@;
    let mut rest = items;
    let mut k: usize = 0;
    while k < n
        invariant
            n == orig.len(),
            rest.len() == n - k,
            out.len() == k,
            rest@ == orig.subrange(k as int, n as int),
            forall|i: int| 0 <= i < k ==> #[trigger] out[i] == (i == n - 1, orig[i]),
        decreases n - k,
    {
        let item = rest.remove(0);
        out.push((k + 1 == n, item));
        k = k + 1;
    }
    out
}

/// Combines operations with `f`; a single operation stands for itself.
pub fn create_operation<F>(ops: Vec<Operation>, f: F) -> (r: Operation)
    where
        F: Fn(Vec<Operation>) -> Operation,
    requires
        forall|v: Vec<Operation>| #[trigger] f.requires((v,)),
    ensures
        ops.len() == 1 ==> r == ops[0],
        ops.len() != 1 ==> f.ensures((ops,), r),
{
    if ops.len() == 1 {
        let mut ops = ops;
        ops.pop().unwrap()
    } else {
        f(ops)
    }
}

/// What a leaf's kind says, in words.
pub enum KindView {
    Tolerant(Seq<char>),
    Exact(Seq<char>),
    Phrase(Seq<Seq<char>>),
}

/// What a leaf says.
pub struct QueryView {
    pub id: nat,
    pub prefix: bool,
    pub kind: KindView,
}

/// What a tree says: its shape and its leaves' words.
pub enum OpView {
    And(Seq<OpView>),
    Or(Seq<OpView>),
    Query(QueryView),
}

impl Query {
    /// The leaf's id, flag and words.
    pub open spec fn view(self) -> QueryView {
        QueryView {
            id: self.id as nat,
            prefix: self.prefix,
            kind: match self.kind {
                QueryKind::Tolerant(w) => KindView::Tolerant(w@),
                QueryKind::Exact(w) => KindView::Exact(w@),
                QueryKind::Phrase(ws) => KindView::Phrase(string_views(ws@)),
            },
        }
    }
}

/// The view of a tree.
pub open spec fn op_view(op: Operation) -> OpView
    decreases op,
{
    match op {
        Operation::And(cs) => OpView::And(ops_view(cs@)),
        Operation::Or(cs) => OpView::Or(ops_view(cs@)),
        Operation::Query(q) => OpView::Query(q.view()),
    }
}

/// The views of a sequence of trees.
pub open spec fn ops_view(cs: Seq<Operation>) -> Seq<OpView>
    decreases cs,
{
    if cs.len() == 0 {
        Seq::empty()
    } else {
        ops_view(cs.drop_last()).push(op_view(cs.last()))
    }
}

/// A sequence of trees has as many views as trees.
pub proof fn lemma_ops_view_len(cs: Seq<Operation>)
    ensures
        ops_view(cs).len() == cs.len(),
    decreases cs.len(),
{
    if cs.len() > 0 {
        lemma_ops_view_len(cs.drop_last());
    }
}

/// Appending a tree appends its view.
pub proof fn lemma_ops_view_push(cs: Seq<Operation>, x: Operation)
    ensures
        ops_view(cs.push(x)) == ops_view(cs).push(op_view(x)),
{
    assert(cs.push(x).drop_last() =~= cs);
}

/// The views of a single tree.
pub proof fn lemma_ops_view_single(cs: Seq<Operation>)
    requires
        cs.len() == 1,
    ensures
        ops_view(cs) == seq![op_view(cs[0])],
{
    reveal_with_fuel(ops_view, 2);
    assert(cs.drop_last() =~= Seq::<Operation>::empty());
    assert(ops_view(cs) =~= seq![op_view(cs[0])]);
}

/// `And` of the views, or the one view itself.
pub open spec fn and_view(vs: Seq<OpView>) -> OpView {
    if vs.len() == 1 { vs[0] } else { OpView::And(vs) }
}

/// `Or` of the views, or the one view itself.
pub open spec fn or_view(vs: Seq<OpView>) -> OpView {
    if vs.len() == 1 { vs[0] } else { OpView::Or(vs) }
}

/// A leaf's view.
pub open spec fn leaf_view(id: nat, prefix: bool, kind: KindView) -> OpView {
    OpView::Query(QueryView { id, prefix, kind })
}

} // verus!
