//! Rewriting of the matches of a document into matches of the words of the
//! query as it was typed.

use vstd::prelude::*;

use crate::padding::{padded, padded_matches, padding_fits};
use crate::phrase::{phrases_searchable, staying, staying_matches};
use crate::postings::PostingsLists;
use crate::query_enhancer::QueryEnhancer;
use crate::sorting::{
    lemma_same_records, lists, sort_dedup, sort_unstable_by_key, sorted_by, ByPosition,
    ByQueryWord,
};
use crate::types::{BareMatch, DocIndex, QueryWordAutomaton, RawDocument, SimpleMatch};

verus! {

/// Whether matches can be rewritten: phrases can be searched among them, and
/// those that stay can be padded.
pub open spec fn rewritable(
    matches: Set<SimpleMatch>,
    enhancer: Seq<(u32, u32)>,
    automatons: Seq<QueryWordAutomaton>,
) -> bool {
    &&& phrases_searchable(matches, automatons)
    &&& padding_fits(staying(matches, automatons), enhancer)
}

/// Rewritten matches: those that stay, with their padding.
pub open spec fn rewritten(
    matches: Set<SimpleMatch>,
    enhancer: Seq<(u32, u32)>,
    automatons: Seq<QueryWordAutomaton>,
) -> Set<SimpleMatch> {
    padded(staying(matches, automatons), enhancer)
}

/// Rewrites matches, and lists the result in increasing order. The matches
/// themselves are left sorted by attribute, word of the query and position.
pub fn multiword_rewrite_matches(
    simple_matches: &mut [SimpleMatch],
    query_enhancer: &QueryEnhancer,
    automatons: &[QueryWordAutomaton],
) -> (set: Vec<SimpleMatch>)
    requires
        rewritable(old(simple_matches)@.to_set(), query_enhancer@, automatons@),
    ensures
        lists(set@, rewritten(old(simple_matches)@.to_set(), query_enhancer@, automatons@)),
        final(simple_matches)@.to_multiset() == old(simple_matches)@.to_multiset(),
        sorted_by::<SimpleMatch, ByQueryWord>(final(simple_matches)@),
        forall|i: int, j: int|
            0 <= i < j < final(simple_matches)@.len() ==> {
                let (a, b) = (
                    #[trigger] final(simple_matches)@[i],
                    #[trigger] final(simple_matches)@[j],
                );
                a.attribute < b.attribute || (a.attribute == b.attribute && (a.query_index
                    < b.query_index || (a.query_index == b.query_index && a.word_index
                    <= b.word_index)))
            },
        forall|x: SimpleMatch| #[trigger]
            set@.contains(x) <==> rewritten(
                old(simple_matches)@.to_set(),
                query_enhancer.replacements@,
                automatons@,
            ).contains(x),
{
    // we sort the matches by word index to make them rewritable
    sort_unstable_by_key::<SimpleMatch, ByQueryWord>(simple_matches);
    proof {
        lemma_same_records(simple_matches@, old(simple_matches)@);
    }
    let mut matches: Vec<SimpleMatch> = staying_matches(simple_matches, automatons);
    let ghost kept = matches@;
    sort_unstable_by_key::<SimpleMatch, ByPosition>(matches.as_mut_slice());
    proof {
        lemma_same_records(matches@, kept);
    }
    let padded: Vec<SimpleMatch> = padded_matches(matches.as_slice(), query_enhancer);
    let set: Vec<SimpleMatch> = sort_dedup(&padded);
    assert forall|x: SimpleMatch| #[trigger] set@.contains(x) <==> rewritten(
        old(simple_matches)@.to_set(),
        query_enhancer.replacements@,
        automatons@,
    ).contains(x) by {
        assert(set@.to_set().contains(x) <==> set@.contains(x));
    }
    set
}

/// The match of a word of the query at one place of a postings list.
pub open spec fn match_at<I>(m: BareMatch<I>, place: DocIndex) -> SimpleMatch {
    SimpleMatch {
        query_index: m.query_index,
        distance: m.distance,
        attribute: place.attribute,
        word_index: place.word_index,
        is_exact: m.is_exact,
    }
}

/// The matches of a raw match: at all places of its postings list.
pub open spec fn matches_at<P: PostingsLists>(
    m: BareMatch<P::Index>,
    postings_lists: P,
) -> Seq<SimpleMatch> {
    postings_lists.list(m.postings_list).map_values(|place: DocIndex| match_at(m, place))
}

/// The matches of a document: its raw matches, each at all places of its postings list.
pub open spec fn matches_of<P: PostingsLists>(
    raw_matches: Seq<BareMatch<P::Index>>,
    postings_lists: P,
) -> Seq<SimpleMatch>
    decreases raw_matches.len(),
{
    if raw_matches.len() == 0 {
        Seq::empty()
    } else {
        matches_of(raw_matches.drop_last(), postings_lists) + matches_at(
            raw_matches.last(),
            postings_lists,
        )
    }
}

/// Whether the matches of a document can be prepared: they already are, or
/// their postings lists are there and they can be rewritten.
pub open spec fn raw_matches_preparable<P: PostingsLists>(
    document: RawDocument<P::Index>,
    postings_lists: P,
    enhancer: Seq<(u32, u32)>,
    automatons: Seq<QueryWordAutomaton>,
) -> bool {
    document.processed_matches@.len() == 0 ==> {
        &&& forall|i: int|
            0 <= i < document.raw_matches@.len() ==> postings_lists.holds(
                (#[trigger] document.raw_matches@[i]).postings_list,
            )
        &&& rewritable(
            matches_of(document.raw_matches@, postings_lists).to_set(),
            enhancer,
            automatons,
        )
    }
}

/// Whether `after` is `before` with its matches prepared: where there were no
/// processed matches, they are the rewritten matches of the document. Nothing
/// else differs.
pub open spec fn raw_matches_prepared<P: PostingsLists>(
    before: RawDocument<P::Index>,
    after: RawDocument<P::Index>,
    postings_lists: P,
    enhancer: Seq<(u32, u32)>,
    automatons: Seq<QueryWordAutomaton>,
) -> bool {
    if before.processed_matches@.len() > 0 {
        after == before
    } else {
        &&& after.raw_matches == before.raw_matches
        &&& after.processed_distances == before.processed_distances
        &&& lists(
            after.processed_matches@,
            rewritten(
                matches_of(before.raw_matches@, postings_lists).to_set(),
                enhancer,
                automatons,
            ),
        )
    }
}

/// Whether the matches of all documents can be prepared.
pub open spec fn all_raw_matches_preparable<P: PostingsLists>(
    documents: Seq<RawDocument<P::Index>>,
    postings_lists: P,
    enhancer: Seq<(u32, u32)>,
    automatons: Seq<QueryWordAutomaton>,
) -> bool {
    forall|d: int|
        0 <= d < documents.len() ==> raw_matches_preparable(
            #[trigger] documents[d],
            postings_lists,
            enhancer,
            automatons,
        )
}

/// Whether `after` are the documents of `before` with their matches prepared.
pub open spec fn all_raw_matches_prepared<P: PostingsLists>(
    before: Seq<RawDocument<P::Index>>,
    after: Seq<RawDocument<P::Index>>,
    postings_lists: P,
    enhancer: Seq<(u32, u32)>,
    automatons: Seq<QueryWordAutomaton>,
) -> bool {
    &&& after.len() == before.len()
    &&& forall|d: int|
        0 <= d < before.len() ==> raw_matches_prepared(
            before[d],
            #[trigger] after[d],
            postings_lists,
            enhancer,
            automatons,
        )
}

/// Collects the matches of a document.
fn collect_matches<P: PostingsLists>(
    raw_matches: &Vec<BareMatch<P::Index>>,
    postings_lists: &P,
) -> (matches: Vec<SimpleMatch>)
    requires
        forall|i: int|
            0 <= i < raw_matches@.len() ==> postings_lists.holds(
                (#[trigger] raw_matches@[i]).postings_list,
            ),
    ensures
        matches@ == matches_of(raw_matches@, *postings_lists),
{
    let mut matches: Vec<SimpleMatch> = Vec::new();
    let mut i: usize = 0;
    while i < raw_matches.len()
        invariant
            i <= raw_matches@.len(),
            forall|i: int|
                0 <= i < raw_matches@.len() ==> postings_lists.holds(
                    (#[trigger] raw_matches@[i]).postings_list,
                ),
            matches@ == matches_of(raw_matches@.take(i as int), *postings_lists),
        decreases raw_matches@.len() - i,
    {
        let m: &BareMatch<P::Index> = &raw_matches[i];
        let list: &Vec<DocIndex> = postings_lists.get(m.postings_list);
        let ghost before = matches@;
        let ghost at = |place: DocIndex| match_at(*m, place);
        let mut j: usize = 0;
        while j < list.len()
            invariant
                j <= list@.len(),
                at == |place: DocIndex| match_at(*m, place),
                matches@ == before + list@.take(j as int).map_values(at),
            decreases list@.len() - j,
        {
            let di: DocIndex = list[j];
            matches.push(
                SimpleMatch {
                    query_index: m.query_index,
                    distance: m.distance,
                    attribute: di.attribute,
                    word_index: di.word_index,
                    is_exact: m.is_exact,
                },
            );
            assert(list@.take(j + 1) == list@.take(j as int).push(di));
            j += 1;
        }
        proof {
            assert(list@.take(j as int) == list@);
            let next = raw_matches@.take(i + 1);
            assert(next.drop_last() == raw_matches@.take(i as int));
            assert(next.last() == *m);
        }
        i += 1;
    }
    assert(raw_matches@.take(i as int) == raw_matches@);
    matches
}

/// Prepares the matches of documents, where it was not done before.
pub fn prepare_raw_matches<P: PostingsLists>(
    documents: &mut [RawDocument<P::Index>],
    postings_lists: &mut P,
    query_enhancer: &QueryEnhancer,
    automatons: &[QueryWordAutomaton],
)
    requires
        all_raw_matches_preparable(
            old(documents)@,
            *old(postings_lists),
            query_enhancer@,
            automatons@,
        ),
    ensures
        *final(postings_lists) == *old(postings_lists),
        all_raw_matches_prepared(
            old(documents)@,
            final(documents)@,
            *old(postings_lists),
            query_enhancer@,
            automatons@,
        ),
        final(documents)@.len() == old(documents)@.len(),
        forall|d: int|
            0 <= d < old(documents)@.len() ==> {
                &&& (#[trigger] final(documents)@[d]).raw_matches == old(documents)@[d].raw_matches
                &&& final(documents)@[d].processed_distances == old(documents)@[d].processed_distances
                &&& old(documents)@[d].processed_matches@.len() > 0 ==> final(documents)@[d].processed_matches == old(documents)@[d].processed_matches
                &&& old(documents)@[d].processed_matches@.len() == 0 ==> lists(
                    final(documents)@[d].processed_matches@,
                    rewritten(
                        matches_of(old(documents)@[d].raw_matches@, *old(postings_lists)).to_set(),
                        query_enhancer.replacements@,
                        automatons@,
                    ),
                )
            },
{
    let mut d: usize = 0;
    while d < documents.len()
        invariant
            d <= documents@.len(),
            documents@.len() == old(documents)@.len(),
            *postings_lists == *old(postings_lists),
            all_raw_matches_preparable(
                old(documents)@,
                *old(postings_lists),
                query_enhancer@,
                automatons@,
            ),
            forall|c: int|
                0 <= c < d ==> raw_matches_prepared(
                    old(documents)@[c],
                    #[trigger] documents@[c],
                    *old(postings_lists),
                    query_enhancer@,
                    automatons@,
                ),
            forall|c: int|
                d <= c < documents@.len() ==> #[trigger] documents@[c] == old(documents)@[c],
        decreases documents@.len() - d,
    {
        assert(documents@[d as int] == old(documents)@[d as int]);
        if documents[d].processed_matches.is_empty() {
            let mut processed: Vec<SimpleMatch> = collect_matches(
                &documents[d].raw_matches,
                &*postings_lists,
            );
            documents[d].processed_matches =
            multiword_rewrite_matches(processed.as_mut_slice(), query_enhancer, automatons);
        }
        d += 1;
    }
}


} // verus!
