//! Documents that match more words of the query exactly come first.

use std::cmp::Ordering;

use vstd::prelude::*;

use crate::criterion::{by_rank, Criterion, Ranked};
use crate::grouping::{
    contents, keys_ascend, lemma_run_keys_increase, lemma_runs, lemma_runs_keep_order,
    lemma_runs_pushed, linear_groups, runs, ByQueryIndex, GroupKey,
};
use crate::postings::PostingsLists;
use crate::query_enhancer::QueryEnhancer;
use crate::sorting::{
    key_at_most, lemma_same_records, sort_unstable_by_key, sorted_by, ByExactness, SortKey,
};
use crate::types::{BareMatch, QueryWordAutomaton, RawDocument};

verus! {

/// How many groups begin with an exact match.
pub open spec fn count_exact<I>(groups: Seq<Seq<BareMatch<I>>>) -> int
    decreases groups.len(),
{
    if groups.len() == 0 {
        0
    } else {
        count_exact(groups.drop_last()) + (if groups.last()[0].is_exact {
            1int
        } else {
            0int
        })
    }
}

/// How many words of the query begin with an exact match.
pub open spec fn exact_words<I>(matches: Seq<BareMatch<I>>) -> int {
    count_exact(runs::<BareMatch<I>, ByQueryIndex>(matches))
}

/// Counts the words of the query that begin with an exact match.
fn sum_exact_query_words<I>(matches: &[BareMatch<I>]) -> (sum: usize)
    ensures
        sum == exact_words(matches@),
{
    let groups: Vec<&[BareMatch<I>]> = linear_groups::<BareMatch<I>, ByQueryIndex>(matches);
    let ghost r = runs::<BareMatch<I>, ByQueryIndex>(matches@);
    assert(forall|g: int| 0 <= g < r.len() ==> (#[trigger] r[g]).len() > 0) by {
        lemma_runs::<BareMatch<I>, ByQueryIndex>(matches@);
    }
    let mut sum: usize = 0;
    for g in 0..groups.len()
        invariant
            contents(groups@) == r,
            forall|g: int| 0 <= g < r.len() ==> (#[trigger] r[g]).len() > 0,
            sum == count_exact(r.take(g as int)),
            sum <= g,
    {
        let ghost next = r.take(g + 1);
        assert(next.drop_last() == r.take(g as int));
        assert(next.last() == r[g as int]);
        assert(contents(groups@)[g as int] == groups@[g as int]@);
        if groups[g][0].is_exact {
            sum += 1;
        }
    }
    assert(r.take(r.len() as int) == r);
    sum
}

/// Whether `after` is `before` with its raw matches sorted by word of the
/// query, exact matches first. Nothing else differs.
pub open spec fn exactness_prepared<I>(before: RawDocument<I>, after: RawDocument<I>) -> bool {
    &&& after.processed_matches == before.processed_matches
    &&& after.processed_distances == before.processed_distances
    &&& after.raw_matches@.to_multiset() == before.raw_matches@.to_multiset()
    &&& sorted_by::<BareMatch<I>, ByExactness>(after.raw_matches@)
}

/// Orders documents by the number of words of the query that they match exactly.
pub struct Exact;

impl<P: PostingsLists> Criterion<P> for Exact {
    open spec fn label(&self) -> Seq<char> {
        "exact"@
    }

    open spec fn can_prepare(
        &self,
        documents: Seq<RawDocument<P::Index>>,
        postings_lists: P,
        query_enhancer: QueryEnhancer,
        automatons: Seq<QueryWordAutomaton>,
    ) -> bool {
        true
    }

    open spec fn prepares(
        &self,
        before: (Seq<RawDocument<P::Index>>, P),
        after: (Seq<RawDocument<P::Index>>, P),
        query_enhancer: QueryEnhancer,
        automatons: Seq<QueryWordAutomaton>,
    ) -> bool {
        &&& after.1 == before.1
        &&& after.0.len() == before.0.len()
        &&& forall|d: int|
            0 <= d < before.0.len() ==> exactness_prepared(before.0[d], #[trigger] after.0[d])
    }

    open spec fn can_evaluate(
        &self,
        lhs: RawDocument<P::Index>,
        rhs: RawDocument<P::Index>,
        postings_lists: P,
    ) -> bool {
        true
    }

    open spec fn order(
        &self,
        lhs: RawDocument<P::Index>,
        rhs: RawDocument<P::Index>,
        postings_lists: P,
    ) -> Ordering {
        by_rank(-exact_words(lhs.raw_matches@), -exact_words(rhs.raw_matches@))
    }

    fn name(&self) -> (name: &str) {
        "exact"
    }

    fn prepare(
        &self,
        documents: &mut [RawDocument<P::Index>],
        postings_lists: &mut P,
        query_enhancer: &QueryEnhancer,
        automatons: &[QueryWordAutomaton],
    ) {
        let mut d: usize = 0;
        while d < documents.len()
            invariant
                d <= documents@.len(),
                documents@.len() == old(documents)@.len(),
                forall|c: int|
                    0 <= c < d ==> exactness_prepared(
                        old(documents)@[c],
                        #[trigger] documents@[c],
                    ),
                forall|c: int|
                    d <= c < documents@.len() ==> #[trigger] documents@[c] == old(documents)@[c],
            decreases documents@.len() - d,
        {
            assert(documents@[d as int] == old(documents)@[d as int]);
            sort_unstable_by_key::<BareMatch<P::Index>, ByExactness>(
                documents[d].raw_matches.as_mut_slice(),
            );
            d += 1;
        }
    }

    fn evaluate(
        &self,
        lhs: &RawDocument<P::Index>,
        rhs: &RawDocument<P::Index>,
        postings_lists: &P,
    ) -> (ordering: Ordering) {
        let lhs: usize = sum_exact_query_words(&lhs.raw_matches);
        let rhs: usize = sum_exact_query_words(&rhs.raw_matches);
        rhs.cmp(&lhs)
    }
}

impl<P: PostingsLists> Ranked<P> for Exact {
    open spec fn rank(&self, document: RawDocument<P::Index>) -> int {
        -exact_words(document.raw_matches@)
    }

    proof fn ordered_by_rank(
        &self,
        lhs: RawDocument<P::Index>,
        rhs: RawDocument<P::Index>,
        postings_lists: P,
    ) {
    }
}

/// The words of the query that some match matches exactly.
pub open spec fn exactly_matched<I>(matches: Seq<BareMatch<I>>) -> Set<u16> {
    Set::new(
        |query_index: u16|
            exists|i: int|
                0 <= i < matches.len() && (#[trigger] matches[i]).query_index == query_index
                    && matches[i].is_exact,
    )
}

/// The words of the first `n` groups that begin with an exact match.
spec fn exact_group_words<I>(groups: Seq<Seq<BareMatch<I>>>, n: int) -> Set<u16> {
    Set::new(
        |query_index: u16|
            exists|g: int|
                0 <= g < n && (#[trigger] groups[g])[0].query_index == query_index
                    && groups[g][0].is_exact,
    )
}

/// Where each word has one group, as many words as groups begin with an exact match.
proof fn lemma_count_exact<I>(groups: Seq<Seq<BareMatch<I>>>, n: int)
    requires
        0 <= n <= groups.len(),
        forall|g: int, h: int|
            0 <= g < h < groups.len() ==> (#[trigger] groups[g])[0].query_index < (
            #[trigger] groups[h])[0].query_index,
    ensures
        exact_group_words(groups, n).finite(),
        exact_group_words(groups, n).len() == count_exact(groups.take(n)),
    decreases n,
{
    let set = exact_group_words(groups, n);
    if n == 0 {
        assert(set =~= Set::empty());
    } else {
        lemma_count_exact(groups, n - 1);
        let before = exact_group_words(groups, n - 1);
        let last = groups[n - 1][0];
        assert(groups.take(n).drop_last() == groups.take(n - 1));
        assert(groups.take(n).last() == groups[n - 1]);
        if last.is_exact {
            assert(!before.contains(last.query_index));
            assert(set =~= before.insert(last.query_index)) by {
                assert forall|q: u16| set.contains(q) <==> before.insert(
                    last.query_index,
                ).contains(q) by {
                    if set.contains(q) {
                        let g = choose|g: int|
                            0 <= g < n && (#[trigger] groups[g])[0].query_index == q
                                && groups[g][0].is_exact;
                        assert(g == n - 1 || before.contains(q));
                    }
                    if q == last.query_index {
                        assert(groups[n - 1][0].query_index == q);
                    }
                }
            }
        } else {
            assert(set =~= before) by {
                assert forall|q: u16| set.contains(q) <==> before.contains(q) by {
                    if set.contains(q) {
                        let g = choose|g: int|
                            0 <= g < n && (#[trigger] groups[g])[0].query_index == q
                                && groups[g][0].is_exact;
                        assert(g < n - 1);
                    }
                }
            }
        }
    }
}

/// Where exact matches come first, a group with an exact match begins with one.
proof fn lemma_group_of_exact<I>(s: Seq<BareMatch<I>>, m: BareMatch<I>)
    requires
        sorted_by::<BareMatch<I>, ByExactness>(s),
        s.contains(m),
        m.is_exact,
    ensures
        exists|g: int|
            {
                &&& 0 <= g < runs::<BareMatch<I>, ByQueryIndex>(s).len()
                &&& (#[trigger] runs::<BareMatch<I>, ByQueryIndex>(s)[g])[0].query_index
                    == m.query_index
                &&& runs::<BareMatch<I>, ByQueryIndex>(s)[g][0].is_exact
            },
{
    let r = runs::<BareMatch<I>, ByQueryIndex>(s);
    lemma_runs::<BareMatch<I>, ByQueryIndex>(s);
    let g = choose|g: int| 0 <= g < r.len() && (#[trigger] r[g]).contains(m);
    let j = choose|j: int| 0 <= j < r[g].len() && r[g][j] == m;
    assert(ByQueryIndex::key(r[g][j]) == ByQueryIndex::key(r[g][0]));
    if j > 0 {
        assert(key_at_most(ByExactness::key(r[g][0]), ByExactness::key(r[g][j]))) by {
            lemma_runs_keep_order::<BareMatch<I>, ByQueryIndex>(
                s,
                |a: BareMatch<I>, b: BareMatch<I>|
                    key_at_most(ByExactness::key(a), ByExactness::key(b)),
            );
        }
    }
}

/// Where exact matches come first, as many words begin with an exact match as
/// are matched exactly.
proof fn lemma_exact_words<I>(s: Seq<BareMatch<I>>)
    requires
        sorted_by::<BareMatch<I>, ByExactness>(s),
    ensures
        exactly_matched(s).finite(),
        exact_words(s) == exactly_matched(s).len(),
{
    let r = runs::<BareMatch<I>, ByQueryIndex>(s);
    let n = r.len() as int;
    assert forall|g: int, h: int| 0 <= g < h < r.len() implies (#[trigger] r[g])[0].query_index < (
    #[trigger] r[h])[0].query_index by {
        assert(keys_ascend::<BareMatch<I>, ByQueryIndex>(s));
        lemma_run_keys_increase::<BareMatch<I>, ByQueryIndex>(s);
        assert(ByQueryIndex::key(r[g][0]) < ByQueryIndex::key(r[h][0]));
    }
    lemma_count_exact(r, n);
    assert(r.take(n) == r);
    assert forall|q: u16| exact_group_words(r, n).contains(q) implies exactly_matched(s).contains(
        q,
    ) by {
        let g = choose|g: int|
            0 <= g < r.len() && (#[trigger] r[g])[0].query_index == q && r[g][0].is_exact;
        lemma_runs::<BareMatch<I>, ByQueryIndex>(s);
        assert(r[g].len() > 0);
        assert(s.contains(r[g][0]));
        let i = choose|i: int| 0 <= i < s.len() && s[i] == r[g][0];
        assert(s[i].query_index == q && s[i].is_exact);
    }
    assert forall|q: u16| exactly_matched(s).contains(q) implies exact_group_words(r, n).contains(
        q,
    ) by {
        let i = choose|i: int|
            0 <= i < s.len() && (#[trigger] s[i]).query_index == q && s[i].is_exact;
        lemma_group_of_exact(s, s[i]);
    }
    assert(exact_group_words(r, n) =~= exactly_matched(s));
}

/// After preparing, a document is ranked by the number of words of the query
/// that some match matches exactly, however ties were sorted.
pub proof fn law_exact_words_after_preparing<I>(before: RawDocument<I>, after: RawDocument<I>)
    requires
        exactness_prepared(before, after),
    ensures
        exactly_matched(before.raw_matches@).finite(),
        exact_words(after.raw_matches@) == exactly_matched(before.raw_matches@).len(),
{
    let s = after.raw_matches@;
    let t = before.raw_matches@;
    lemma_exact_words(s);
    lemma_same_records(s, t);
    assert forall|q: u16| exactly_matched(s).contains(q) <==> exactly_matched(t).contains(q) by {
        if exactly_matched(s).contains(q) {
            let i = choose|i: int|
                0 <= i < s.len() && (#[trigger] s[i]).query_index == q && s[i].is_exact;
            assert(s.contains(s[i]));
            let j = choose|j: int| 0 <= j < t.len() && t[j] == s[i];
            assert(t[j].query_index == q);
        }
        if exactly_matched(t).contains(q) {
            let i = choose|i: int|
                0 <= i < t.len() && (#[trigger] t[i]).query_index == q && t[i].is_exact;
            assert(t.contains(t[i]));
            assert(s.contains(t[i]));
            let j = choose|j: int| 0 <= j < s.len() && s[j] == t[i];
            assert(s[j].query_index == q);
        }
    }
    assert(exactly_matched(s) =~= exactly_matched(t));
}

/// A document is ranked by its raw matches alone, those with more words first.
pub proof fn law_exact_rank<P: PostingsLists>(document: RawDocument<P::Index>)
    ensures
        Ranked::<P>::rank(&Exact, document) + exact_words(document.raw_matches@) == 0,
{
}

/// No match is no exact word. One more match is one more exact word where it is
/// exact and the first one of its word, and changes nothing otherwise.
pub proof fn law_exactness_of_one_more_match<I>(matches: Seq<BareMatch<I>>, m: BareMatch<I>)
    ensures
        exact_words(Seq::<BareMatch<I>>::empty()) == 0,
        matches.len() > 0 && matches.last().query_index == m.query_index ==> exact_words(
            matches.push(m),
        ) == exact_words(matches),
        !m.is_exact ==> exact_words(matches.push(m)) == exact_words(matches),
        m.is_exact && (matches.len() == 0 || matches.last().query_index != m.query_index)
            ==> exact_words(matches.push(m)) == exact_words(matches) + 1,
{
    let r = runs::<BareMatch<I>, ByQueryIndex>(matches);
    let t = runs::<BareMatch<I>, ByQueryIndex>(matches.push(m));
    let empty = Seq::<BareMatch<I>>::empty();
    lemma_runs_pushed::<BareMatch<I>, ByQueryIndex>(matches, m);
    lemma_runs::<BareMatch<I>, ByQueryIndex>(matches);
    assert(runs::<BareMatch<I>, ByQueryIndex>(empty) == Seq::<Seq<BareMatch<I>>>::empty());
    if matches.len() > 0 && matches.last().query_index == m.query_index {
        assert(r[r.len() - 1].len() > 0);
        assert(t.drop_last() =~= r.drop_last());
        assert(t.last()[0] == r.last()[0]);
    } else {
        assert(t.drop_last() =~= r);
        assert(t.last()[0] == m);
    }
}

/// Preparing keeps the documents and, of each, all raw matches, sorts these by
/// word with exact ones first, and changes nothing else.
pub proof fn law_exact_prepares<P: PostingsLists>(
    before: (Seq<RawDocument<P::Index>>, P),
    after: (Seq<RawDocument<P::Index>>, P),
    query_enhancer: QueryEnhancer,
    automatons: Seq<QueryWordAutomaton>,
)
    requires
        Exact.prepares(before, after, query_enhancer, automatons),
    ensures
        after.1 == before.1,
        after.0.len() == before.0.len(),
        forall|d: int|
            0 <= d < before.0.len() ==> {
                &&& (#[trigger] after.0[d]).processed_matches == before.0[d].processed_matches
                &&& after.0[d].processed_distances == before.0[d].processed_distances
                &&& after.0[d].raw_matches@.to_multiset() == before.0[d].raw_matches@.to_multiset()
            },
        forall|d: int, i: int, j: int|
            #![trigger after.0[d].raw_matches@[i], after.0[d].raw_matches@[j]]
            0 <= d < before.0.len() && 0 <= i < j < after.0[d].raw_matches@.len() ==> {
                let (a, b) = (after.0[d].raw_matches@[i], after.0[d].raw_matches@[j]);
                a.query_index < b.query_index || (a.query_index == b.query_index && (a.is_exact
                    || !b.is_exact))
            },
{
    assert forall|d: int, i: int, j: int|
        #![trigger after.0[d].raw_matches@[i], after.0[d].raw_matches@[j]]
        0 <= d < before.0.len() && 0 <= i < j < after.0[d].raw_matches@.len() implies {
        let (a, b) = (after.0[d].raw_matches@[i], after.0[d].raw_matches@[j]);
        a.query_index < b.query_index || (a.query_index == b.query_index && (a.is_exact
            || !b.is_exact))
    } by {
        assert(exactness_prepared(before.0[d], after.0[d]));
    }
}

/// All documents can be prepared, and any two can be ordered.
pub proof fn law_exact_is_total<P: PostingsLists>(
    documents: Seq<RawDocument<P::Index>>,
    lhs: RawDocument<P::Index>,
    rhs: RawDocument<P::Index>,
    postings_lists: P,
    query_enhancer: QueryEnhancer,
    automatons: Seq<QueryWordAutomaton>,
)
    ensures
        Exact.can_prepare(documents, postings_lists, query_enhancer, automatons),
        Exact.can_evaluate(lhs, rhs, postings_lists),
{
}

} // verus!
