//! Scorer: pairs every query's identifier with its distance to the
//! reference. The queries are independent — each result depends only on the
//! read-only reference and on that one query — so any schedule that computes
//! these pairs, one unit of work per query, produces this same bag.

use vstd::prelude::*;
use vstd::slice::slice_to_vec;
use crate::distance::Kernel;
use crate::distance::distance_with;
use crate::distance::spec_distance;
use crate::records::SequenceRecord;
use crate::records::record_views;

verus! {

/// One query's result: the identifier copied unchanged from the query
/// record, and the query's distance to the reference.
#[derive(Debug)]
pub struct ScoreRecord {
    pub id: Vec<u8>,
    pub distance: usize,
}

/// The abstract content of a sequence of scores: (identifier, distance)
/// pairs.
pub open spec fn score_views(v: Seq<ScoreRecord>) -> Seq<(Seq<u8>, nat)> {
    v.map(|i: int, s: ScoreRecord| (s.id@, s.distance as nat))
}

/// What scoring owes: one pair per query, in input order, each pairing the
/// query's identifier with the distance of its symbols to the reference.
pub open spec fn spec_scores(
    ref_syms: Seq<u8>,
    queries: Seq<(Seq<u8>, Seq<u8>)>,
) -> Seq<(Seq<u8>, nat)> {
    queries.map(|i: int, q: (Seq<u8>, Seq<u8>)| (q.0, spec_distance(ref_syms, q.1)))
}

/// Scores every query against the reference through the selected kernel:
/// exactly one score per query, none dropped, identifiers propagated
/// unchanged.
pub fn score_all(kernel: Kernel, reference: &[u8], queries: &Vec<SequenceRecord>) -> (r: Vec<
    ScoreRecord,
>)
    ensures
        score_views(r@) == spec_scores(reference@, record_views(queries@)),
        r@.len() == queries@.len(),
{
    let mut r: Vec<ScoreRecord> = Vec::new();
    let mut i: usize = 0;
    while i < queries.len()
        invariant
            i <= queries@.len(),
            r@.len() == i,
            forall|j: int|
                0 <= j < i ==> r@[j].id@ == queries@[j].id@ && r@[j].distance == spec_distance(
                    reference@,
                    queries@[j].symbols@,
                ),
        decreases queries@.len() - i,
    {
        let q = &queries[i];
        let d = distance_with(kernel, reference, q.symbols.as_slice());
        let id = slice_to_vec(q.id.as_slice());
        r.push(ScoreRecord { id, distance: d });
        i = i + 1;
    }
    proof {
        assert(score_views(r@) =~= spec_scores(reference@, record_views(queries@)));
    }
    r
}

} // verus!
