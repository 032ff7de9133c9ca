//! Documents that match near the beginning of their attributes come first.

use std::cmp::Ordering;

use vstd::prelude::*;

use crate::criterion::{by_rank, Criterion, Ranked};
use crate::grouping::{
    contents, lemma_runs, lemma_runs_pushed, linear_groups, runs, ByQueryIndex,
};
use crate::postings::PostingsLists;
use crate::query_enhancer::QueryEnhancer;
use crate::rewrite::{
    all_raw_matches_preparable, all_raw_matches_prepared, prepare_raw_matches,
};
use crate::types::{QueryWordAutomaton, RawDocument, SimpleMatch};

verus! {

/// The sum of the positions of the first matches of the groups.
pub open spec fn sum_of_positions(groups: Seq<Seq<SimpleMatch>>) -> int
    decreases groups.len(),
{
    if groups.len() == 0 {
        0
    } else {
        sum_of_positions(groups.drop_last()) + groups.last()[0].word_index
    }
}

/// The sum of the positions of the first matches of the words of the query.
pub open spec fn position_sum(matches: Seq<SimpleMatch>) -> int {
    sum_of_positions(runs::<SimpleMatch, ByQueryIndex>(matches))
}

/// Fewer groups have no larger sum.
proof fn lemma_sum_of_positions(groups: Seq<Seq<SimpleMatch>>, n: int)
    requires
        0 <= n <= groups.len(),
    ensures
        sum_of_positions(groups.take(n)) <= sum_of_positions(groups),
    decreases groups.len(),
{
    if n < groups.len() {
        assert(groups.drop_last().take(n) == groups.take(n));
        lemma_sum_of_positions(groups.drop_last(), n);
    } else {
        assert(groups.take(n) == groups);
    }
}

/// Sums up the positions of the first matches of the words of the query.
fn sum_words_position(matches: &[SimpleMatch]) -> (sum: usize)
    requires
        position_sum(matches@) <= usize::MAX,
    ensures
        sum == position_sum(matches@),
{
    let groups: Vec<&[SimpleMatch]> = linear_groups::<SimpleMatch, ByQueryIndex>(matches);
    let ghost r = runs::<SimpleMatch, ByQueryIndex>(matches@);
    proof {
        lemma_runs::<SimpleMatch, ByQueryIndex>(matches@);
    }
    let mut sum: usize = 0;
    for g in 0..groups.len()
        invariant
            contents(groups@) == r,
            forall|g: int| 0 <= g < r.len() ==> (#[trigger] r[g]).len() > 0,
            sum == sum_of_positions(r.take(g as int)),
            sum_of_positions(r) <= usize::MAX,
    {
        let ghost next = r.take(g + 1);
        assert(next.drop_last() == r.take(g as int));
        assert(next.last() == r[g as int]);
        assert(contents(groups@)[g as int] == groups@[g as int]@);
        proof {
            lemma_sum_of_positions(r, g + 1);
        }
        sum += groups[g][0].word_index as usize;
    }
    assert(r.take(r.len() as int) == r);
    sum
}

/// Orders documents by the positions at which the words of the query match.
pub struct WordsPosition;

impl<P: PostingsLists> Criterion<P> for WordsPosition {
    open spec fn label(&self) -> Seq<char> {
        "words position"@
    }

    open spec fn can_prepare(
        &self,
        documents: Seq<RawDocument<P::Index>>,
        postings_lists: P,
        query_enhancer: QueryEnhancer,
        automatons: Seq<QueryWordAutomaton>,
    ) -> bool {
        all_raw_matches_preparable(documents, postings_lists, query_enhancer@, automatons)
    }

    open spec fn prepares(
        &self,
        before: (Seq<RawDocument<P::Index>>, P),
        after: (Seq<RawDocument<P::Index>>, P),
        query_enhancer: QueryEnhancer,
        automatons: Seq<QueryWordAutomaton>,
    ) -> bool {
        &&& after.1 == before.1
        &&& all_raw_matches_prepared(before.0, after.0, before.1, query_enhancer@, automatons)
    }

    open spec fn can_evaluate(
        &self,
        lhs: RawDocument<P::Index>,
        rhs: RawDocument<P::Index>,
        postings_lists: P,
    ) -> bool {
        &&& position_sum(lhs.processed_matches@) <= usize::MAX
        &&& position_sum(rhs.processed_matches@) <= usize::MAX
    }

    open spec fn order(
        &self,
        lhs: RawDocument<P::Index>,
        rhs: RawDocument<P::Index>,
        postings_lists: P,
    ) -> Ordering {
        by_rank(
            position_sum(lhs.processed_matches@),
            position_sum(rhs.processed_matches@),
        )
    }

    fn name(&self) -> (name: &str) {
        "words position"
    }

    fn prepare(
        &self,
        documents: &mut [RawDocument<P::Index>],
        postings_lists: &mut P,
        query_enhancer: &QueryEnhancer,
        automatons: &[QueryWordAutomaton],
    ) {
        prepare_raw_matches(documents, postings_lists, query_enhancer, automatons);
    }

    fn evaluate(
        &self,
        lhs: &RawDocument<P::Index>,
        rhs: &RawDocument<P::Index>,
        postings_lists: &P,
    ) -> (ordering: Ordering) {
        let lhs: usize = sum_words_position(&lhs.processed_matches);
        let rhs: usize = sum_words_position(&rhs.processed_matches);
        lhs.cmp(&rhs)
    }
}

impl<P: PostingsLists> Ranked<P> for WordsPosition {
    open spec fn rank(&self, document: RawDocument<P::Index>) -> int {
        position_sum(document.processed_matches@)
    }

    proof fn ordered_by_rank(
        &self,
        lhs: RawDocument<P::Index>,
        rhs: RawDocument<P::Index>,
        postings_lists: P,
    ) {
    }
}

/// A document is ranked by its processed matches alone.
pub proof fn law_words_position_rank<P: PostingsLists>(document: RawDocument<P::Index>)
    ensures
        Ranked::<P>::rank(&WordsPosition, document) == position_sum(document.processed_matches@),
{
}

/// No match adds up to nothing. One more match adds its position, whatever its
/// other fields, where it is the first one of its word, and nothing otherwise.
pub proof fn law_position_of_one_more_match(matches: Seq<SimpleMatch>, m: SimpleMatch)
    ensures
        position_sum(Seq::empty()) == 0,
        matches.len() > 0 && matches.last().query_index == m.query_index ==> position_sum(
            matches.push(m),
        ) == position_sum(matches),
        matches.len() == 0 || matches.last().query_index != m.query_index ==> position_sum(
            matches.push(m),
        ) - position_sum(matches) == m.word_index,
{
    let r = runs::<SimpleMatch, ByQueryIndex>(matches);
    let t = runs::<SimpleMatch, ByQueryIndex>(matches.push(m));
    lemma_runs_pushed::<SimpleMatch, ByQueryIndex>(matches, m);
    lemma_runs::<SimpleMatch, ByQueryIndex>(matches);
    assert(runs::<SimpleMatch, ByQueryIndex>(Seq::empty()) == Seq::<Seq<SimpleMatch>>::empty());
    if matches.len() > 0 && matches.last().query_index == m.query_index {
        assert(r[r.len() - 1].len() > 0);
        assert(t.drop_last() =~= r.drop_last());
        assert(t.last()[0] == r.last()[0]);
    } else {
        assert(t.drop_last() =~= r);
        assert(t.last()[0] == m);
    }
}

/// Replacing a match by another one of the same word makes the sum larger by how
/// much further on the new one stands, if it is the first one of its word, and
/// leaves the sum as it is otherwise.
pub proof fn law_moving_a_match_moves_the_sum(matches: Seq<SimpleMatch>, i: int, m: SimpleMatch)
    requires
        0 <= i < matches.len(),
        m.query_index == matches[i].query_index,
    ensures
        i == 0 || matches[i - 1].query_index != m.query_index ==> position_sum(
            matches.update(i, m),
        ) - position_sum(matches) == m.word_index - matches[i].word_index,
        i > 0 && matches[i - 1].query_index == m.query_index ==> position_sum(
            matches.update(i, m),
        ) == position_sum(matches),
    decreases matches.len(),
{
    let rest = matches.drop_last();
    let last = matches.last();
    let after = matches.update(i, m);
    assert(matches =~= rest.push(last));
    law_position_of_one_more_match(rest, last);
    if i == matches.len() - 1 {
        assert(after =~= rest.push(m));
        law_position_of_one_more_match(rest, m);
    } else {
        let moved = rest.update(i, m);
        assert(after =~= moved.push(last));
        law_moving_a_match_moves_the_sum(rest, i, m);
        law_position_of_one_more_match(moved, last);
    }
}

/// Preparing gives the missing matches and changes nothing else.
pub proof fn law_words_position_prepares<P: PostingsLists>(
    before: (Seq<RawDocument<P::Index>>, P),
    after: (Seq<RawDocument<P::Index>>, P),
    query_enhancer: QueryEnhancer,
    automatons: Seq<QueryWordAutomaton>,
)
    ensures
        WordsPosition.can_prepare(before.0, before.1, query_enhancer, automatons)
            <==> all_raw_matches_preparable(
            before.0,
            before.1,
            query_enhancer.replacements@,
            automatons,
        ),
        WordsPosition.prepares(before, after, query_enhancer, automatons) ==> after.1 == before.1
            && all_raw_matches_prepared(
            before.0,
            after.0,
            before.1,
            query_enhancer.replacements@,
            automatons,
        ),
{
}

/// Two documents can be ordered if their sums can be computed.
pub proof fn law_words_position_compares<P: PostingsLists>(
    lhs: RawDocument<P::Index>,
    rhs: RawDocument<P::Index>,
    postings_lists: P,
)
    ensures
        WordsPosition.can_evaluate(lhs, rhs, postings_lists) <==> position_sum(
            lhs.processed_matches@,
        ) <= usize::MAX && position_sum(rhs.processed_matches@) <= usize::MAX,
{
}

} // verus!
