//! Documents in which the words of the query stand closer together come first.

use std::cmp::Ordering;

use vstd::prelude::*;

use crate::criterion::{by_rank, Criterion, Ranked};
use crate::grouping::{
    contents, lemma_runs, lemma_runs_pushed, linear_groups, runs, ByQueryIndex,
};
use crate::postings::PostingsLists;
use crate::query_enhancer::QueryEnhancer;
use crate::rewrite::{
    all_raw_matches_preparable, all_raw_matches_prepared, prepare_raw_matches,
};
use crate::types::{QueryWordAutomaton, RawDocument, SimpleMatch};

verus! {

/// Distances from here on are not told apart.
pub const MAX_DISTANCE: u16 = 8;

/// How far two positions are apart; going back costs one more.
pub open spec fn position_distance(lhs: u16, rhs: u16) -> int {
    if lhs < rhs {
        vstd::math::min(rhs - lhs, MAX_DISTANCE as int)
    } else {
        vstd::math::min(lhs - rhs, MAX_DISTANCE as int) + 1
    }
}

/// How far two matches are apart.
pub open spec fn match_distance(lhs: SimpleMatch, rhs: SimpleMatch) -> int {
    if lhs.attribute != rhs.attribute {
        MAX_DISTANCE as int
    } else {
        position_distance(lhs.word_index, rhs.word_index)
    }
}

/// Whether `distance` is the smallest one between matches of two groups: none
/// are closer, and some are this close, unless a group is empty.
pub open spec fn is_least_distance(
    lhs: Seq<SimpleMatch>,
    rhs: Seq<SimpleMatch>,
    distance: int,
) -> bool {
    &&& forall|i: int, j: int|
        0 <= i < lhs.len() && 0 <= j < rhs.len() ==> distance <= #[trigger] match_distance(
            lhs[i],
            rhs[j],
        )
    &&& distance == u16::MAX && (lhs.len() == 0 || rhs.len() == 0) || exists|i: int, j: int|
        0 <= i < lhs.len() && 0 <= j < rhs.len() && distance == #[trigger] match_distance(
            lhs[i],
            rhs[j],
        )
}

/// The smallest distance between matches of two groups.
pub open spec fn least_distance(lhs: Seq<SimpleMatch>, rhs: Seq<SimpleMatch>) -> int {
    choose|distance: int| is_least_distance(lhs, rhs, distance)
}

/// The sum of the distances between neighbouring groups.
pub open spec fn sum_of_distances(groups: Seq<Seq<SimpleMatch>>) -> int
    decreases groups.len(),
{
    if groups.len() < 2 {
        0
    } else {
        sum_of_distances(groups.drop_last()) + least_distance(
            groups[groups.len() - 2],
            groups[groups.len() - 1],
        )
    }
}

/// How far the words of the query are apart: the sum of the distances between
/// words that follow each other.
pub open spec fn proximity(matches: Seq<SimpleMatch>) -> int {
    sum_of_distances(runs::<SimpleMatch, ByQueryIndex>(matches))
}

/// Two groups have only one smallest distance.
pub proof fn lemma_least_distance(lhs: Seq<SimpleMatch>, rhs: Seq<SimpleMatch>, distance: int)
    requires
        is_least_distance(lhs, rhs, distance),
    ensures
        least_distance(lhs, rhs) == distance,
{
    let d = least_distance(lhs, rhs);
    assert(is_least_distance(lhs, rhs, d));
}

/// Tells how far two positions are apart.
fn index_proximity(lhs: u16, rhs: u16) -> (distance: u16)
    ensures
        distance == position_distance(lhs, rhs),
{
    if lhs < rhs {
        if rhs - lhs < MAX_DISTANCE {
            rhs - lhs
        } else {
            MAX_DISTANCE
        }
    } else {
        if lhs - rhs < MAX_DISTANCE {
            lhs - rhs + 1
        } else {
            MAX_DISTANCE + 1
        }
    }
}

/// Tells how far two matches are apart.
fn attribute_proximity(lhs: SimpleMatch, rhs: SimpleMatch) -> (distance: u16)
    ensures
        distance == match_distance(lhs, rhs),
{
    if lhs.attribute != rhs.attribute {
        MAX_DISTANCE
    } else {
        index_proximity(lhs.word_index, rhs.word_index)
    }
}

/// Finds the smallest distance between matches of two groups.
fn min_proximity(lhs: &[SimpleMatch], rhs: &[SimpleMatch]) -> (least: u16)
    ensures
        is_least_distance(lhs@, rhs@, least as int),
        least == least_distance(lhs@, rhs@),
{
    let mut least: u16 = u16::MAX;
    let mut i: usize = 0;
    while i < lhs.len()
        invariant
            i <= lhs@.len(),
            forall|p: int, q: int|
                0 <= p < i && 0 <= q < rhs@.len() ==> least <= #[trigger] match_distance(
                    lhs@[p],
                    rhs@[q],
                ),
            least == u16::MAX && (i == 0 || rhs@.len() == 0) || exists|p: int, q: int|
                0 <= p < i && 0 <= q < rhs@.len() && least == #[trigger] match_distance(
                    lhs@[p],
                    rhs@[q],
                ),
        decreases lhs@.len() - i,
    {
        let mut j: usize = 0;
        while j < rhs.len()
            invariant
                i < lhs@.len(),
                j <= rhs@.len(),
                forall|p: int, q: int|
                    0 <= p < lhs@.len() && 0 <= q < rhs@.len() && (p < i || (p == i && q < j))
                        ==> least <= #[trigger] match_distance(lhs@[p], rhs@[q]),
                least == u16::MAX && (i == 0 && j == 0 || rhs@.len() == 0) || exists|
                    p: int,
                    q: int,
                |
                    0 <= p < lhs@.len() && 0 <= q < rhs@.len() && (p < i || (p == i && q < j))
                        && least == #[trigger] match_distance(lhs@[p], rhs@[q]),
            decreases rhs@.len() - j,
        {
            let distance: u16 = attribute_proximity(lhs[i], rhs[j]);
            assert(distance == match_distance(lhs@[i as int], rhs@[j as int]));
            if distance < least {
                least = distance;
            }
            j += 1;
        }
        i += 1;
    }
    proof {
        lemma_least_distance(lhs@, rhs@, least as int);
    }
    least
}

/// Neighbouring groups are at least one apart, and at most one more than the
/// largest distance that is told apart.
proof fn lemma_least_distance_range(lhs: Seq<SimpleMatch>, rhs: Seq<SimpleMatch>)
    requires
        lhs.len() > 0,
        rhs.len() > 0,
    ensures
        1 <= least_distance(lhs, rhs) <= MAX_DISTANCE + 1,
{
    lemma_some_least_distance(lhs, rhs, match_distance(lhs[0], rhs[0]));
}

/// Two groups have a smallest distance.
proof fn lemma_some_least_distance(lhs: Seq<SimpleMatch>, rhs: Seq<SimpleMatch>, distance: int)
    requires
        exists|i: int, j: int|
            0 <= i < lhs.len() && 0 <= j < rhs.len() && distance == #[trigger] match_distance(
                lhs[i],
                rhs[j],
            ),
    ensures
        is_least_distance(lhs, rhs, least_distance(lhs, rhs)),
    decreases distance,
{
    if is_least_distance(lhs, rhs, distance) {
        lemma_least_distance(lhs, rhs, distance);
    } else {
        let (i, j) = choose|i: int, j: int|
            0 <= i < lhs.len() && 0 <= j < rhs.len() && distance > #[trigger] match_distance(
                lhs[i],
                rhs[j],
            );
        lemma_some_least_distance(lhs, rhs, match_distance(lhs[i], rhs[j]));
    }
}

/// Fewer groups have no larger sum of distances.
proof fn lemma_sum_of_distances(groups: Seq<Seq<SimpleMatch>>, n: int)
    requires
        0 <= n <= groups.len(),
        forall|g: int| 0 <= g < groups.len() ==> (#[trigger] groups[g]).len() > 0,
    ensures
        0 <= sum_of_distances(groups.take(n)) <= sum_of_distances(groups),
    decreases groups.len(),
{
    if groups.len() >= 2 {
        lemma_least_distance_range(groups[groups.len() - 2], groups[groups.len() - 1]);
        lemma_sum_of_distances(
            groups.drop_last(),
            if n < groups.len() {
                n
            } else {
                n - 1
            },
        );
    }
    if n < groups.len() {
        assert(groups.drop_last().take(n) == groups.take(n));
    } else {
        assert(groups.take(n) == groups);
    }
}

/// Sums up the distances between words of the query that follow each other.
fn matches_proximity(matches: &[SimpleMatch]) -> (sum: u16)
    requires
        proximity(matches@) <= u16::MAX,
    ensures
        sum == proximity(matches@),
{
    let groups: Vec<&[SimpleMatch]> = linear_groups::<SimpleMatch, ByQueryIndex>(matches);
    let ghost r = runs::<SimpleMatch, ByQueryIndex>(matches@);
    assert(forall|g: int| 0 <= g < r.len() ==> (#[trigger] r[g]).len() > 0) by {
        lemma_runs::<SimpleMatch, ByQueryIndex>(matches@);
    }
    let mut sum: u16 = 0;
    // iterate over groups by windows of size 2
    for g in 0..groups.len()
        invariant
            contents(groups@) == r,
            forall|g: int| 0 <= g < r.len() ==> (#[trigger] r[g]).len() > 0,
            sum == sum_of_distances(r.take(g as int)),
            sum_of_distances(r) <= u16::MAX,
    {
        let ghost next = r.take(g + 1);
        assert(next.drop_last() == r.take(g as int));
        proof {
            lemma_sum_of_distances(r, g + 1);
        }
        if g > 0 {
            assert(next[g - 1] == r[g - 1]);
            assert(next[g as int] == r[g as int]);
            assert(contents(groups@)[g as int] == groups@[g as int]@);
            assert(contents(groups@)[g - 1] == groups@[g - 1]@);
            sum += min_proximity(groups[g - 1], groups[g]);
        }
    }
    assert(r.take(r.len() as int) == r);
    sum
}

/// Where no more than this many words match, their distances can be summed up.
pub const MAX_WORDS: u16 = 7282;

/// The words of a query are at least one apart each, and at most one more than
/// the largest distance that is told apart; so the distances of up to
/// `MAX_WORDS` words can always be summed up.
pub proof fn law_proximity_range(matches: Seq<SimpleMatch>)
    ensures
        runs::<SimpleMatch, ByQueryIndex>(matches).len() > 0 ==> runs::<
            SimpleMatch,
            ByQueryIndex,
        >(matches).len() - 1 <= proximity(matches) <= (MAX_DISTANCE + 1) * (runs::<
            SimpleMatch,
            ByQueryIndex,
        >(matches).len() - 1),
        runs::<SimpleMatch, ByQueryIndex>(matches).len() <= MAX_WORDS ==> proximity(matches)
            <= u16::MAX,
{
    lemma_runs::<SimpleMatch, ByQueryIndex>(matches);
    let r = runs::<SimpleMatch, ByQueryIndex>(matches);
    if r.len() > 0 {
        lemma_distances_range(r);
    }
}

/// The range of the sum of distances.
proof fn lemma_distances_range(groups: Seq<Seq<SimpleMatch>>)
    requires
        groups.len() > 0,
        forall|g: int| 0 <= g < groups.len() ==> (#[trigger] groups[g]).len() > 0,
    ensures
        groups.len() - 1 <= sum_of_distances(groups) <= (MAX_DISTANCE + 1) * (groups.len() - 1),
    decreases groups.len(),
{
    if groups.len() >= 2 {
        lemma_distances_range(groups.drop_last());
        lemma_least_distance_range(groups[groups.len() - 2], groups[groups.len() - 1]);
    }
}

/// Orders documents by how far the words of the query are apart.
pub struct Proximity;

impl<P: PostingsLists> Criterion<P> for Proximity {
    open spec fn label(&self) -> Seq<char> {
        "proximity"@
    }

    open spec fn can_prepare(
        &self,
        documents: Seq<RawDocument<P::Index>>,
        postings_lists: P,
        query_enhancer: QueryEnhancer,
        automatons: Seq<QueryWordAutomaton>,
    ) -> bool {
        all_raw_matches_preparable(documents, postings_lists, query_enhancer@, automatons)
    }

    open spec fn prepares(
        &self,
        before: (Seq<RawDocument<P::Index>>, P),
        after: (Seq<RawDocument<P::Index>>, P),
        query_enhancer: QueryEnhancer,
        automatons: Seq<QueryWordAutomaton>,
    ) -> bool {
        &&& after.1 == before.1
        &&& all_raw_matches_prepared(before.0, after.0, before.1, query_enhancer@, automatons)
    }

    open spec fn can_evaluate(
        &self,
        lhs: RawDocument<P::Index>,
        rhs: RawDocument<P::Index>,
        postings_lists: P,
    ) -> bool {
        &&& proximity(lhs.processed_matches@) <= u16::MAX
        &&& proximity(rhs.processed_matches@) <= u16::MAX
    }

    open spec fn order(
        &self,
        lhs: RawDocument<P::Index>,
        rhs: RawDocument<P::Index>,
        postings_lists: P,
    ) -> Ordering {
        by_rank(proximity(lhs.processed_matches@), proximity(rhs.processed_matches@))
    }

    fn name(&self) -> (name: &str) {
        "proximity"
    }

    fn prepare(
        &self,
        documents: &mut [RawDocument<P::Index>],
        postings_lists: &mut P,
        query_enhancer: &QueryEnhancer,
        automatons: &[QueryWordAutomaton],
    ) {
        prepare_raw_matches(documents, postings_lists, query_enhancer, automatons);
    }

    fn evaluate(
        &self,
        lhs: &RawDocument<P::Index>,
        rhs: &RawDocument<P::Index>,
        postings_lists: &P,
    ) -> (ordering: Ordering) {
        let lhs: u16 = matches_proximity(&lhs.processed_matches);
        let rhs: u16 = matches_proximity(&rhs.processed_matches);
        lhs.cmp(&rhs)
    }
}

impl<P: PostingsLists> Ranked<P> for Proximity {
    open spec fn rank(&self, document: RawDocument<P::Index>) -> int {
        proximity(document.processed_matches@)
    }

    proof fn ordered_by_rank(
        &self,
        lhs: RawDocument<P::Index>,
        rhs: RawDocument<P::Index>,
        postings_lists: P,
    ) {
    }
}

/// A document is ranked by its processed matches alone.
pub proof fn law_proximity_rank<P: PostingsLists>(document: RawDocument<P::Index>)
    ensures
        Ranked::<P>::rank(&Proximity, document) == proximity(document.processed_matches@),
{
}

/// Whether all matches of a sequence are of one word.
pub open spec fn one_word(matches: Seq<SimpleMatch>) -> bool {
    forall|i: int, j: int|
        0 <= i < matches.len() && 0 <= j < matches.len() ==> (
        #[trigger] matches[i]).query_index == (#[trigger] matches[j]).query_index
}

/// The matches of another word at the end make up one more run.
proof fn lemma_runs_of_one_more_word(matches: Seq<SimpleMatch>, word: Seq<SimpleMatch>)
    requires
        one_word(word),
        word.len() > 0,
        matches.len() == 0 || matches.last().query_index != word[0].query_index,
    ensures
        runs::<SimpleMatch, ByQueryIndex>(matches + word) == runs::<SimpleMatch, ByQueryIndex>(
            matches,
        ).push(word),
    decreases word.len(),
{
    let r = runs::<SimpleMatch, ByQueryIndex>(matches);
    let rest = word.drop_last();
    let last = word.last();
    assert((matches + word) =~= (matches + rest).push(last));
    lemma_runs_pushed::<SimpleMatch, ByQueryIndex>(matches + rest, last);
    if rest.len() == 0 {
        assert(matches + rest =~= matches);
        assert(word =~= seq![last]);
    } else {
        assert(one_word(rest)) by {
            assert forall|i: int, j: int| 0 <= i < rest.len() && 0 <= j < rest.len() implies (
            #[trigger] rest[i]).query_index == (#[trigger] rest[j]).query_index by {
                assert(rest[i] == word[i] && rest[j] == word[j]);
            }
        }
        lemma_runs_of_one_more_word(matches, rest);
        assert((matches + rest).last() == word[rest.len() - 1]);
        assert(word[rest.len() - 1].query_index == word[rest.len() as int].query_index);
        assert(r.push(rest).drop_last() =~= r);
        assert(rest.push(last) =~= word);
    }
}

/// Nothing, or a single word, is no distance apart.
pub proof fn law_proximity_of_one_word(word: Seq<SimpleMatch>)
    requires
        one_word(word),
    ensures
        proximity(word) == 0,
{
    let empty = Seq::<SimpleMatch>::empty();
    assert(runs::<SimpleMatch, ByQueryIndex>(empty) == Seq::<Seq<SimpleMatch>>::empty());
    if word.len() > 0 {
        lemma_runs_of_one_more_word(empty, word);
        assert(empty + word =~= word);
    } else {
        assert(word =~= empty);
    }
}

/// One more word is as far from the word before it as the closest two of their
/// matches would be in a document of their own, and this is added to how far the
/// words before it are apart.
pub proof fn law_proximity_of_one_more_word(
    matches: Seq<SimpleMatch>,
    before: Seq<SimpleMatch>,
    word: Seq<SimpleMatch>,
)
    requires
        before.len() > 0,
        one_word(before),
        word.len() > 0,
        one_word(word),
        before[0].query_index != word[0].query_index,
        matches.len() == 0 || matches.last().query_index != before[0].query_index,
    ensures
        forall|i: int, j: int|
            0 <= i < before.len() && 0 <= j < word.len() ==> proximity(matches + before + word)
                - proximity(matches + before) <= proximity(
                seq![#[trigger] before[i], #[trigger] word[j]],
            ),
        exists|i: int, j: int|
            0 <= i < before.len() && 0 <= j < word.len() && proximity(matches + before + word)
                - proximity(matches + before) == proximity(
                seq![#[trigger] before[i], #[trigger] word[j]],
            ),
{
    let r = runs::<SimpleMatch, ByQueryIndex>(matches);
    lemma_runs_of_one_more_word(matches, before);
    assert((matches + before).last() == before.last());
    assert(before[before.len() - 1].query_index == before[0].query_index);
    lemma_runs_of_one_more_word(matches + before, word);
    assert(r.push(before).push(word).drop_last() =~= r.push(before));
    let distance = least_distance(before, word);
    assert(proximity(matches + before + word) - proximity(matches + before) == distance);
    assert(match_distance(before[0], word[0]) == match_distance(before[0], word[0]));
    lemma_some_least_distance(before, word, match_distance(before[0], word[0]));
    assert forall|i: int, j: int| 0 <= i < before.len() && 0 <= j < word.len() implies proximity(
        seq![#[trigger] before[i], #[trigger] word[j]],
    ) == match_distance(before[i], word[j]) by {
        assert(before[i].query_index == before[0].query_index);
        assert(word[j].query_index == word[0].query_index);
        lemma_proximity_of_two(before[i], word[j]);
    }
    let (i, j) = choose|i: int, j: int|
        0 <= i < before.len() && 0 <= j < word.len() && distance == #[trigger] match_distance(
            before[i],
            word[j],
        );
    assert(proximity(seq![before[i], word[j]]) == distance);
}

/// Two matches of two words are as far apart as their distance.
proof fn lemma_proximity_of_two(a: SimpleMatch, b: SimpleMatch)
    requires
        a.query_index != b.query_index,
    ensures
        proximity(seq![a, b]) == match_distance(a, b),
{
    let empty = Seq::<SimpleMatch>::empty();
    assert(runs::<SimpleMatch, ByQueryIndex>(empty) == Seq::<Seq<SimpleMatch>>::empty());
    lemma_runs_of_one_more_word(empty, seq![a]);
    assert(empty + seq![a] =~= seq![a]);
    lemma_runs_of_one_more_word(seq![a], seq![b]);
    assert(seq![a] + seq![b] =~= seq![a, b]);
    let groups = runs::<SimpleMatch, ByQueryIndex>(seq![a, b]);
    assert(groups =~= seq![seq![a], seq![b]]);
    assert(match_distance(seq![a][0], seq![b][0]) == match_distance(a, b));
    lemma_least_distance(seq![a], seq![b], match_distance(a, b));
    assert(groups.drop_last() =~= seq![seq![a]]);
    assert(sum_of_distances(groups.drop_last()) == 0);
    assert(groups[0] == seq![a] && groups[1] == seq![b]);
}

/// Two words in one attribute, the second `k` positions after the first, are `k`
/// apart, up to eight positions; the second `k` positions before the first, or at
/// the same position, they are `k + 1` apart, up to nine. Words in two attributes
/// are eight apart.
pub proof fn law_proximity_of_two_words(a: SimpleMatch, b: SimpleMatch, k: int)
    requires
        a.query_index != b.query_index,
    ensures
        a.attribute == b.attribute && b.word_index == a.word_index + k && 0 < k <= 8 ==> proximity(
            seq![a, b],
        ) == k,
        a.attribute == b.attribute && b.word_index > a.word_index + 8 ==> proximity(seq![a, b])
            == 8,
        a.attribute == b.attribute && a.word_index == b.word_index + k && 0 <= k <= 8
            ==> proximity(seq![a, b]) == k + 1,
        a.attribute == b.attribute && a.word_index > b.word_index + 8 ==> proximity(seq![a, b])
            == 9,
        a.attribute != b.attribute ==> proximity(seq![a, b]) == 8,
{
    lemma_proximity_of_two(a, b);
}

/// Further apart is never closer: in either direction, one position more makes two
/// words of one attribute one further apart, until it makes no difference.
pub proof fn law_proximity_grows(a: SimpleMatch, near: SimpleMatch, far: SimpleMatch)
    requires
        a.query_index != near.query_index,
        a.query_index != far.query_index,
        a.attribute == near.attribute == far.attribute,
        a.word_index <= near.word_index < far.word_index || far.word_index < near.word_index
            <= a.word_index,
        a.word_index < near.word_index || far.word_index < a.word_index,
    ensures
        proximity(seq![a, near]) <= proximity(seq![a, far]),
        -8 < near.word_index - a.word_index < 8 ==> proximity(seq![a, near]) < proximity(
            seq![a, far],
        ),
{
    lemma_proximity_of_two(a, near);
    lemma_proximity_of_two(a, far);
}

/// Preparing gives the missing matches and changes nothing else.
pub proof fn law_proximity_prepares<P: PostingsLists>(
    before: (Seq<RawDocument<P::Index>>, P),
    after: (Seq<RawDocument<P::Index>>, P),
    query_enhancer: QueryEnhancer,
    automatons: Seq<QueryWordAutomaton>,
)
    ensures
        Proximity.can_prepare(before.0, before.1, query_enhancer, automatons)
            <==> all_raw_matches_preparable(
            before.0,
            before.1,
            query_enhancer.replacements@,
            automatons,
        ),
        Proximity.prepares(before, after, query_enhancer, automatons) ==> after.1 == before.1
            && all_raw_matches_prepared(
            before.0,
            after.0,
            before.1,
            query_enhancer.replacements@,
            automatons,
        ),
{
}

/// Two documents can be ordered if their sums can be computed.
pub proof fn law_proximity_compares<P: PostingsLists>(
    lhs: RawDocument<P::Index>,
    rhs: RawDocument<P::Index>,
    postings_lists: P,
)
    ensures
        Proximity.can_evaluate(lhs, rhs, postings_lists) <==> proximity(
            lhs.processed_matches@,
        ) <= u16::MAX && proximity(rhs.processed_matches@) <= u16::MAX,
{
}

} // verus!
