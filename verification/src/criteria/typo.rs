//! Documents that match the query with fewer typos come first.
//!
//! How many typos a document has is a score that weighs its matched words
//! against their distances.

use std::cmp::Ordering;

use vstd::prelude::*;

use crate::criterion::{by_rank, opposite};
use crate::distances::{
    all_distances_preparable, all_distances_prepared, distances_of, prepare_query_distances,
};
use crate::postings::PostingsLists;
use crate::query_enhancer::QueryEnhancer;
use crate::types::{QueryWordAutomaton, RawDocument};

verus! {

/// Orders documents by their typos.
pub struct Typo;

/// The rank of a document with this score: larger scores come first.
pub open spec fn score_rank(score: usize) -> int {
    -(score as int)
}

/// The distances of the words of the query that were found, in order.
pub open spec fn found_distances(distances: Seq<Option<u8>>) -> Seq<u8>
    decreases distances.len(),
{
    if distances.len() == 0 {
        Seq::empty()
    } else {
        match distances.last() {
            Some(distance) => found_distances(distances.drop_last()).push(distance),
            None => found_distances(distances.drop_last()),
        }
    }
}

impl Typo {
    /// Returns the name of the criterion.
    pub fn name(&self) -> (name: &str)
        ensures
            name@ == "typo"@,
    {
        "typo"
    }

    /// Prepares the distances of the documents.
    pub fn prepare<P: PostingsLists>(
        &self,
        documents: &mut [RawDocument<P::Index>],
        postings_lists: &mut P,
        query_enhancer: &QueryEnhancer,
        automatons: &[QueryWordAutomaton],
    )
        requires
            all_distances_preparable(old(documents)@, query_enhancer@),
        ensures
            *final(postings_lists) == *old(postings_lists),
            all_distances_prepared(old(documents)@, final(documents)@, query_enhancer@),
            final(documents)@.len() == old(documents)@.len(),
            forall|d: int|
                0 <= d < old(documents)@.len() ==> {
                    &&& (#[trigger] final(documents)@[d]).raw_matches == old(documents)@[d].raw_matches
                    &&& final(documents)@[d].processed_matches == old(documents)@[d].processed_matches
                    &&& old(documents)@[d].processed_distances@.len() > 0 ==> final(documents)@[d].processed_distances == old(documents)@[d].processed_distances
                    &&& old(documents)@[d].processed_distances@.len() == 0 ==> final(documents)@[d].processed_distances@ == distances_of(
                        old(documents)@[d].raw_matches@,
                        query_enhancer.replacements@,
                    )
                },
    {
        prepare_query_distances(documents, query_enhancer);
    }

    /// Returns the distances that the score of a document weighs: one for each
    /// word of the query that was found.
    pub fn typos(&self, distances: &[Option<u8>]) -> (typos: Vec<u8>)
        ensures
            typos@ == found_distances(distances@),
    {
        let mut typos: Vec<u8> = Vec::new();
        for i in 0..distances.len()
            invariant
                typos@ == found_distances(distances@.take(i as int)),
        {
            let ghost next = distances@.take(i + 1);
            assert(next.drop_last() == distances@.take(i as int));
            assert(next.last() == distances@[i as int]);
            if let Some(distance) = distances[i] {
                typos.push(distance);
            }
        }
        assert(distances@.take(distances@.len() as int) == distances@);
        typos
    }

    /// Orders two documents by their scores.
    pub fn evaluate_scores(&self, lhs: usize, rhs: usize) -> (ordering: Ordering)
        ensures
            ordering == by_rank(score_rank(lhs), score_rank(rhs)),
            ordering == Ordering::Less <==> lhs > rhs,
            ordering == Ordering::Equal <==> lhs == rhs,
            ordering == Ordering::Greater <==> lhs < rhs,
    {
        rhs.cmp(&lhs)
    }
}

/// Documents can be sorted by their scores: a score ties with itself, exchanging
/// two scores gives the opposite order, and what comes first, or ties, stays so
/// across a third score.
pub proof fn law_scores_are_sortable(a: usize, b: usize, c: usize)
    ensures
        by_rank(score_rank(a), score_rank(a)) == Ordering::Equal,
        by_rank(score_rank(b), score_rank(a)) == opposite(by_rank(score_rank(a), score_rank(b))),
        by_rank(score_rank(a), score_rank(b)) == Ordering::Less && by_rank(
            score_rank(b),
            score_rank(c),
        ) != Ordering::Greater ==> by_rank(score_rank(a), score_rank(c)) == Ordering::Less,
        by_rank(score_rank(a), score_rank(b)) == Ordering::Equal ==> by_rank(
            score_rank(a),
            score_rank(c),
        ) == by_rank(score_rank(b), score_rank(c)),
{
}

/// No word is no typo. One more word adds its distance at the end where it was
/// found, and nothing otherwise.
pub proof fn law_typos_of_one_more_word(distances: Seq<Option<u8>>, distance: u8)
    ensures
        found_distances(Seq::empty()).len() == 0,
        found_distances(distances.push(None)) == found_distances(distances),
        found_distances(distances.push(Some(distance))) == found_distances(distances).push(
            distance,
        ),
{
    assert(distances.push(None).drop_last() =~= distances);
    assert(distances.push(Some(distance)).drop_last() =~= distances);
}

} // verus!
