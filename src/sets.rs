//! Ordered sets of document ids, kept as strictly ascending vectors.
use sdset::SetOperation;
use vstd::prelude::*;

verus! {

/// Document identifier.
pub type DocumentId = u32;

/// Strictly ascending: sorted and free of duplicates.
pub open spec fn strictly_ascending(s: Seq<DocumentId>) -> bool {
    forall|i: int, j: int| 0 <= i < j < s.len() ==> s[i] < s[j]
}

/// Relies on sdset::SetBuf::from_dirty, which sorts and deduplicates the vector.
#[verifier::external_body]
pub(crate) fn sort_dedup(v: Vec<DocumentId>) -> (r: Vec<DocumentId>)
    ensures
        strictly_ascending(r@),
        r@.to_set() == v@.to_set(),
{
    sdset::SetBuf::from_dirty(v).into_vec()
}

/// Relies on sdset::multi::Intersection: the elements present in every one of
/// the given ordered sets, itself ordered; none for no sets.
#[verifier::external_body]
pub(crate) fn intersect_all(sets: &Vec<Vec<DocumentId>>) -> (r: Vec<DocumentId>)
    requires
        forall|i: int| 0 <= i < sets.len() ==> strictly_ascending(#[trigger] sets[i]@),
    ensures
        strictly_ascending(r@),
        forall|d: DocumentId|
            r@.contains(d) <==> (sets.len() > 0 && forall|i: int|
                0 <= i < sets.len() ==> (#[trigger] sets[i]@).contains(d)),
{
    let slices: Vec<&sdset::Set<DocumentId>> =
        sets.iter().map(|s| sdset::Set::new_unchecked(s.as_slice())).collect();
    sdset::multi::Intersection::new(slices).into_set_buf().into_vec()
}

/// The union of ordered sets, as an ordered set: the sets are concatenated,
/// then sorted and deduplicated in one pass.
pub fn union_all(sets: &Vec<Vec<DocumentId>>) -> (r: Vec<DocumentId>)
    ensures
        strictly_ascending(r@),
        forall|d: DocumentId|
            r@.contains(d) <==> exists|i: int|
                0 <= i < sets.len() && (#[trigger] sets[i]@).contains(d),
{
    let mut ids: Vec<DocumentId> = Vec::new();
    let mut k: usize = 0;
    while k < sets.len()
        invariant
            k <= sets.len(),
            forall|d: DocumentId|
                ids@.contains(d) <==> exists|i: int|
                    0 <= i < k && (#[trigger] sets[i]@).contains(d),
        decreases sets.len() - k,
    {
        let ghost before = ids@;
        let mut part = sets[k].clone();
        ids.append(&mut part);
        assert forall|d: DocumentId|
            ids@.contains(d) <==> exists|i: int|
                0 <= i < k + 1 && (#[trigger] sets[i]@).contains(d) by {
            if ids@.contains(d) {
                let p = choose|p: int| 0 <= p < ids@.len() && ids@[p] == d;
                if p < before.len() {
                    assert(before.contains(d));
                } else {
                    assert(sets[k as int]@[p - before.len()] == d);
                    assert(sets[k as int]@.contains(d));
                }
            }
            if exists|i: int| 0 <= i < k + 1 && (#[trigger] sets[i]@).contains(d) {
                let i = choose|i: int| 0 <= i < k + 1 && (#[trigger] sets[i]@).contains(d);
                if i < k {
                    assert(before.contains(d));
                    let p = choose|p: int| 0 <= p < before.len() && before[p] == d;
                    assert(ids@[p] == d);
                } else {
                    let p = choose|p: int| 0 <= p < sets[i]@.len() && sets[i]@[p] == d;
                    assert(ids@[before.len() + p] == d);
                }
            }
        }
        k = k + 1;
    }
    let r = sort_dedup(ids);
    assert forall|d: DocumentId| r@.contains(d) <==> ids@.contains(d) by {
        assert(r@.to_set().contains(d) == r@.contains(d));
        assert(ids@.to_set().contains(d) == ids@.contains(d));
    }
    r
}

} // verus!
