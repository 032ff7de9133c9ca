//! Documents that match more words of the query come first.

use std::cmp::Ordering;

use vstd::prelude::*;

use crate::criterion::{by_rank, Criterion, Ranked};
use crate::distances::{
    all_distances_preparable, all_distances_prepared, covers, distances_prepared,
    law_closest_distances, prepare_query_distances,
};
use crate::postings::PostingsLists;
use crate::query_enhancer::QueryEnhancer;
use crate::types::{BareMatch, QueryWordAutomaton, RawDocument};

verus! {

/// How many words of the query have a distance.
pub open spec fn found_words(distances: Seq<Option<u8>>) -> nat {
    distances.filter(|distance: Option<u8>| distance is Some).len()
}

/// Counts the words of the query that have a distance.
fn number_of_query_words(distances: &[Option<u8>]) -> (count: usize)
    ensures
        count == found_words(distances@),
{
    let mut count: usize = 0;
    for i in 0..distances.len()
        invariant
            count <= i,
            count == found_words(distances@.take(i as int)),
    {
        reveal(Seq::filter);
        let ghost next = distances@.take(i + 1);
        assert(next.drop_last() == distances@.take(i as int));
        assert(next.last() == distances@[i as int]);
        if distances[i].is_some() {
            count += 1;
        }
    }
    assert(distances@.take(distances@.len() as int) == distances@);
    count
}

/// Orders documents by the number of words of the query that they match.
pub struct Words;

impl<P: PostingsLists> Criterion<P> for Words {
    open spec fn label(&self) -> Seq<char> {
        "words"@
    }

    open spec fn can_prepare(
        &self,
        documents: Seq<RawDocument<P::Index>>,
        postings_lists: P,
        query_enhancer: QueryEnhancer,
        automatons: Seq<QueryWordAutomaton>,
    ) -> bool {
        all_distances_preparable(documents, query_enhancer@)
    }

    open spec fn prepares(
        &self,
        before: (Seq<RawDocument<P::Index>>, P),
        after: (Seq<RawDocument<P::Index>>, P),
        query_enhancer: QueryEnhancer,
        automatons: Seq<QueryWordAutomaton>,
    ) -> bool {
        &&& after.1 == before.1
        &&& all_distances_prepared(before.0, after.0, query_enhancer@)
    }

    open spec fn can_evaluate(
        &self,
        lhs: RawDocument<P::Index>,
        rhs: RawDocument<P::Index>,
        postings_lists: P,
    ) -> bool {
        true
    }

    open spec fn order(
        &self,
        lhs: RawDocument<P::Index>,
        rhs: RawDocument<P::Index>,
        postings_lists: P,
    ) -> Ordering {
        by_rank(-found_words(lhs.processed_distances@), -found_words(rhs.processed_distances@))
    }

    fn name(&self) -> (name: &str) {
        "words"
    }

    fn prepare(
        &self,
        documents: &mut [RawDocument<P::Index>],
        postings_lists: &mut P,
        query_enhancer: &QueryEnhancer,
        automatons: &[QueryWordAutomaton],
    ) {
        prepare_query_distances(documents, query_enhancer);
    }

    fn evaluate(
        &self,
        lhs: &RawDocument<P::Index>,
        rhs: &RawDocument<P::Index>,
        postings_lists: &P,
    ) -> (ordering: Ordering) {
        let lhs: usize = number_of_query_words(&lhs.processed_distances);
        let rhs: usize = number_of_query_words(&rhs.processed_distances);
        rhs.cmp(&lhs)
    }
}

impl<P: PostingsLists> Ranked<P> for Words {
    open spec fn rank(&self, document: RawDocument<P::Index>) -> int {
        -found_words(document.processed_distances@)
    }

    proof fn ordered_by_rank(
        &self,
        lhs: RawDocument<P::Index>,
        rhs: RawDocument<P::Index>,
        postings_lists: P,
    ) {
    }
}

/// The words of the query that some match stands for.
pub open spec fn matched_words<I>(
    raw_matches: Seq<BareMatch<I>>,
    enhancer: Seq<(u32, u32)>,
) -> Set<int> {
    Set::new(
        |i: int|
            exists|k: int|
                0 <= k < raw_matches.len() && covers(#[trigger] raw_matches[k], enhancer, i),
    )
}

/// The words that have a distance.
spec fn found_indices(distances: Seq<Option<u8>>) -> Set<int> {
    Set::new(|i: int| 0 <= i < distances.len() && distances[i] is Some)
}

/// As many words have a distance as were counted.
proof fn lemma_found_words(distances: Seq<Option<u8>>)
    ensures
        found_indices(distances).finite(),
        found_indices(distances).len() == found_words(distances),
    decreases distances.len(),
{
    reveal(Seq::filter);
    let set = found_indices(distances);
    if distances.len() == 0 {
        assert(set =~= Set::empty());
    } else {
        let rest = distances.drop_last();
        let n = distances.len() - 1;
        lemma_found_words(rest);
        if distances.last() is Some {
            assert(set =~= found_indices(rest).insert(n));
        } else {
            assert(set =~= found_indices(rest));
        }
    }
}

/// After preparing, where no match reaches less far than the one before it,
/// a document is ranked by the number of words of the query that its matches
/// stand for.
pub proof fn law_words_after_preparing<I>(
    before: RawDocument<I>,
    after: RawDocument<I>,
    enhancer: Seq<(u32, u32)>,
)
    requires
        distances_prepared(before, after, enhancer),
        before.processed_distances@.len() == 0,
        forall|a: int, b: int|
            0 <= a < b < before.raw_matches@.len()
                ==> enhancer[(#[trigger] before.raw_matches@[a]).query_index as int].1
                <= enhancer[(#[trigger] before.raw_matches@[b]).query_index as int].1,
    ensures
        matched_words(before.raw_matches@, enhancer).finite(),
        found_words(after.processed_distances@) == matched_words(
            before.raw_matches@,
            enhancer,
        ).len(),
{
    let raw = before.raw_matches@;
    let distances = after.processed_distances@;
    lemma_found_words(distances);
    assert(found_indices(distances) =~= matched_words(raw, enhancer)) by {
        assert forall|i: int| found_indices(distances).contains(i) <==> matched_words(
            raw,
            enhancer,
        ).contains(i) by {
            law_closest_distances(raw, enhancer, i);
            if matched_words(raw, enhancer).contains(i) {
                let k = choose|k: int|
                    0 <= k < raw.len() && covers(#[trigger] raw[k], enhancer, i);
                assert(raw.last() == raw[raw.len() - 1]);
                assert(i < distances.len());
            }
        }
    }
}

/// A document is ranked by its distances alone, those with more words first.
pub proof fn law_words_rank<P: PostingsLists>(document: RawDocument<P::Index>)
    ensures
        Ranked::<P>::rank(&Words, document) + found_words(document.processed_distances@) == 0,
{
}

/// No distance is no word. One more word counts where it has a distance, whatever
/// this distance is.
pub proof fn law_count_of_one_more_word(distances: Seq<Option<u8>>, distance: Option<u8>)
    ensures
        found_words(Seq::empty()) == 0,
        distance is None ==> found_words(distances.push(distance)) == found_words(distances),
        distance is Some ==> found_words(distances.push(distance)) == found_words(distances) + 1,
{
    reveal(Seq::filter);
    assert(distances.push(distance).drop_last() =~= distances);
}

/// Any two documents can be ordered.
pub proof fn law_words_are_comparable<P: PostingsLists>(
    lhs: RawDocument<P::Index>,
    rhs: RawDocument<P::Index>,
    postings_lists: P,
)
    ensures
        Words.can_evaluate(lhs, rhs, postings_lists),
{
}

/// Preparing gives the missing distances and changes nothing else.
pub proof fn law_words_prepares<P: PostingsLists>(
    before: (Seq<RawDocument<P::Index>>, P),
    after: (Seq<RawDocument<P::Index>>, P),
    query_enhancer: QueryEnhancer,
    automatons: Seq<QueryWordAutomaton>,
)
    ensures
        Words.can_prepare(before.0, before.1, query_enhancer, automatons)
            <==> all_distances_preparable(before.0, query_enhancer.replacements@),
        Words.prepares(before, after, query_enhancer, automatons) ==> after.1 == before.1
            && all_distances_prepared(before.0, after.0, query_enhancer.replacements@),
{
}

} // verus!
