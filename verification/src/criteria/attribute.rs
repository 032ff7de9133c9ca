//! Documents that match in more important attributes come first.

use std::cmp::Ordering;

use vstd::prelude::*;

use crate::criterion::{by_rank, Criterion, Ranked};
use crate::grouping::{
    contents, lemma_runs, lemma_runs_pushed, linear_groups, runs, ByQueryIndex,
};
use crate::postings::PostingsLists;
use crate::query_enhancer::QueryEnhancer;
use crate::rewrite::{
    all_raw_matches_preparable, all_raw_matches_prepared, prepare_raw_matches,
};
use crate::types::{QueryWordAutomaton, RawDocument, SimpleMatch};

verus! {

/// The smallest attribute among those of the first matches of the groups; more
/// than or equal to any attribute if there is no group.
pub open spec fn least_attribute(groups: Seq<Seq<SimpleMatch>>) -> int
    decreases groups.len(),
{
    if groups.len() == 0 {
        u16::MAX as int
    } else {
        vstd::math::min(least_attribute(groups.drop_last()), groups.last()[0].attribute as int)
    }
}

/// The smallest attribute among those of the first matches of the words of the query.
pub open spec fn leading_attribute(matches: Seq<SimpleMatch>) -> int {
    least_attribute(runs::<SimpleMatch, ByQueryIndex>(matches))
}

/// Finds the smallest attribute among those of the first matches of the words of the query.
fn best_attribute(matches: &[SimpleMatch]) -> (best: u16)
    ensures
        best == leading_attribute(matches@),
{
    let groups: Vec<&[SimpleMatch]> = linear_groups::<SimpleMatch, ByQueryIndex>(matches);
    let ghost r = runs::<SimpleMatch, ByQueryIndex>(matches@);
    proof {
        lemma_runs::<SimpleMatch, ByQueryIndex>(matches@);
    }
    let mut best: u16 = u16::MAX;
    for g in 0..groups.len()
        invariant
            contents(groups@) == r,
            forall|g: int| 0 <= g < r.len() ==> (#[trigger] r[g]).len() > 0,
            best == least_attribute(r.take(g as int)),
    {
        let ghost next = r.take(g + 1);
        assert(next.drop_last() == r.take(g as int));
        assert(next.last() == r[g as int]);
        assert(contents(groups@)[g as int] == groups@[g as int]@);
        let attribute: u16 = groups[g][0].attribute;
        if attribute < best {
            best = attribute;
        }
    }
    assert(r.take(r.len() as int) == r);
    best
}

/// Orders documents by the attribute in which the words of the query match.
pub struct Attribute;

impl<P: PostingsLists> Criterion<P> for Attribute {
    open spec fn label(&self) -> Seq<char> {
        "attribute"@
    }

    open spec fn can_prepare(
        &self,
        documents: Seq<RawDocument<P::Index>>,
        postings_lists: P,
        query_enhancer: QueryEnhancer,
        automatons: Seq<QueryWordAutomaton>,
    ) -> bool {
        all_raw_matches_preparable(documents, postings_lists, query_enhancer@, automatons)
    }

    open spec fn prepares(
        &self,
        before: (Seq<RawDocument<P::Index>>, P),
        after: (Seq<RawDocument<P::Index>>, P),
        query_enhancer: QueryEnhancer,
        automatons: Seq<QueryWordAutomaton>,
    ) -> bool {
        &&& after.1 == before.1
        &&& all_raw_matches_prepared(before.0, after.0, before.1, query_enhancer@, automatons)
    }

    open spec fn can_evaluate(
        &self,
        lhs: RawDocument<P::Index>,
        rhs: RawDocument<P::Index>,
        postings_lists: P,
    ) -> bool {
        true
    }

    open spec fn order(
        &self,
        lhs: RawDocument<P::Index>,
        rhs: RawDocument<P::Index>,
        postings_lists: P,
    ) -> Ordering {
        by_rank(
            leading_attribute(lhs.processed_matches@),
            leading_attribute(rhs.processed_matches@),
        )
    }

    fn name(&self) -> (name: &str) {
        "attribute"
    }

    fn prepare(
        &self,
        documents: &mut [RawDocument<P::Index>],
        postings_lists: &mut P,
        query_enhancer: &QueryEnhancer,
        automatons: &[QueryWordAutomaton],
    ) {
        prepare_raw_matches(documents, postings_lists, query_enhancer, automatons);
    }

    fn evaluate(
        &self,
        lhs: &RawDocument<P::Index>,
        rhs: &RawDocument<P::Index>,
        postings_lists: &P,
    ) -> (ordering: Ordering) {
        let lhs: u16 = best_attribute(&lhs.processed_matches);
        let rhs: u16 = best_attribute(&rhs.processed_matches);
        lhs.cmp(&rhs)
    }
}

impl<P: PostingsLists> Ranked<P> for Attribute {
    open spec fn rank(&self, document: RawDocument<P::Index>) -> int {
        leading_attribute(document.processed_matches@)
    }

    proof fn ordered_by_rank(
        &self,
        lhs: RawDocument<P::Index>,
        rhs: RawDocument<P::Index>,
        postings_lists: P,
    ) {
    }
}

/// A document is ranked by its processed matches alone.
pub proof fn law_attribute_rank<P: PostingsLists>(document: RawDocument<P::Index>)
    ensures
        Ranked::<P>::rank(&Attribute, document) == leading_attribute(
            document.processed_matches@,
        ),
{
}

/// No match leaves a document behind all others. One more match counts where it is
/// the first one of its word, and then the document is ranked by its attribute if
/// that is smaller than what it was ranked by before.
pub proof fn law_attribute_of_one_more_match(matches: Seq<SimpleMatch>, m: SimpleMatch)
    ensures
        leading_attribute(Seq::empty()) == 65535,
        matches.len() > 0 && matches.last().query_index == m.query_index ==> leading_attribute(
            matches.push(m),
        ) == leading_attribute(matches),
        matches.len() == 0 || matches.last().query_index != m.query_index ==> {
            &&& leading_attribute(matches.push(m)) <= leading_attribute(matches)
            &&& leading_attribute(matches.push(m)) <= m.attribute
            &&& leading_attribute(matches.push(m)) == leading_attribute(matches)
                || leading_attribute(matches.push(m)) == m.attribute
        },
{
    let r = runs::<SimpleMatch, ByQueryIndex>(matches);
    let t = runs::<SimpleMatch, ByQueryIndex>(matches.push(m));
    lemma_runs_pushed::<SimpleMatch, ByQueryIndex>(matches, m);
    lemma_runs::<SimpleMatch, ByQueryIndex>(matches);
    assert(runs::<SimpleMatch, ByQueryIndex>(Seq::empty()) == Seq::<Seq<SimpleMatch>>::empty());
    if matches.len() > 0 && matches.last().query_index == m.query_index {
        assert(r[r.len() - 1].len() > 0);
        assert(t.drop_last() =~= r.drop_last());
        assert(t.last()[0] == r.last()[0]);
    } else {
        assert(t.drop_last() =~= r);
        assert(t.last()[0] == m);
    }
}

/// Whether the match at `i` is the first one of its word: no match of the same
/// word stands right before it.
pub open spec fn first_of_word(matches: Seq<SimpleMatch>, i: int) -> bool {
    &&& 0 <= i < matches.len()
    &&& i > 0 ==> matches[i - 1].query_index != matches[i].query_index
}

/// The rank of a document is at most the attribute of the first match of each
/// word, and it is one of these attributes if there is a match.
pub proof fn law_attribute_is_the_best(matches: Seq<SimpleMatch>)
    ensures
        forall|i: int| #[trigger]
            first_of_word(matches, i) ==> leading_attribute(matches) <= matches[i].attribute,
        matches.len() > 0 ==> exists|i: int| #[trigger]
            first_of_word(matches, i) && leading_attribute(matches) == matches[i].attribute,
    decreases matches.len(),
{
    if matches.len() > 0 {
        let rest = matches.drop_last();
        let m = matches.last();
        let n = matches.len() - 1;
        assert(matches =~= rest.push(m));
        law_attribute_of_one_more_match(rest, m);
        law_attribute_is_the_best(rest);
        assert forall|i: int| 0 <= i < n implies #[trigger] first_of_word(matches, i)
            == first_of_word(rest, i) by {}
        assert forall|i: int| #[trigger] first_of_word(matches, i) implies leading_attribute(
            matches,
        ) <= matches[i].attribute by {
            if i < n {
                assert(first_of_word(rest, i));
            }
        }
        if first_of_word(matches, n) && leading_attribute(matches) == m.attribute {
        } else if rest.len() == 0 {
            assert(leading_attribute(rest) == 65535);
            assert(first_of_word(matches, n));
        } else {
            let i = choose|i: int| #[trigger]
                first_of_word(rest, i) && leading_attribute(rest) == rest[i].attribute;
            assert(first_of_word(matches, i));
        }
    }
}

/// Preparing gives the missing matches and changes nothing else.
pub proof fn law_attribute_prepares<P: PostingsLists>(
    before: (Seq<RawDocument<P::Index>>, P),
    after: (Seq<RawDocument<P::Index>>, P),
    query_enhancer: QueryEnhancer,
    automatons: Seq<QueryWordAutomaton>,
)
    ensures
        Attribute.can_prepare(before.0, before.1, query_enhancer, automatons)
            <==> all_raw_matches_preparable(
            before.0,
            before.1,
            query_enhancer.replacements@,
            automatons,
        ),
        Attribute.prepares(before, after, query_enhancer, automatons) ==> after.1 == before.1
            && all_raw_matches_prepared(
            before.0,
            after.0,
            before.1,
            query_enhancer.replacements@,
            automatons,
        ),
{
}

/// Any two documents can be ordered.
pub proof fn law_attribute_compares<P: PostingsLists>(
    lhs: RawDocument<P::Index>,
    rhs: RawDocument<P::Index>,
    postings_lists: P,
)
    ensures
        Attribute.can_evaluate(lhs, rhs, postings_lists),
{
}

} // verus!
