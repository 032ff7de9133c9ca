//! What holds of rewriting as a whole.

use vstd::prelude::*;

use crate::grouping::{
    keys_ascend, lemma_runs, lemma_runs_keep_order, lemma_runs_of_ascending, runs, ByQueryIndex,
};
use crate::padding::{
    answers, comes_from, first_answered, first_word, found_at, inserted, is_width,
    later_positions, lemma_first_answered, lemma_width, looked_at, match_fits, matched_at, moved,
    moved_position, padded, padding_fits, padding_len, padding_match, padding_position,
    padding_word, placed, positions, preceding, shift, width, POSITIONS,
};
use crate::phrase::{follows, leads, occurs, side_by_side, staying, stays};
use crate::postings::PostingsLists;
use crate::rewrite::{
    all_raw_matches_preparable, all_raw_matches_prepared, matches_at, matches_of,
    raw_matches_preparable, raw_matches_prepared, rewritable, rewritten,
};
use crate::sorting::{lemma_contains_added, lemma_same_records, lists, precedes};
use crate::types::{BareMatch, QueryWordAutomaton, RawDocument, SimpleMatch};

pub mod phrases;
pub mod positions;

verus! {

/// A set of matches has only one list.
pub proof fn law_one_list(a: Seq<SimpleMatch>, b: Seq<SimpleMatch>, set: Set<SimpleMatch>)
    requires
        lists(a, set),
        lists(b, set),
    ensures
        a == b,
    decreases a.len(),
{
    assert forall|x: SimpleMatch| a.contains(x) <==> b.contains(x) by {
        assert(a.to_set().contains(x) <==> b.to_set().contains(x));
    }
    if a.len() == 0 {
        if b.len() > 0 {
            assert(b.contains(b[0]));
        }
        assert(a =~= b);
    } else {
        assert(a.contains(a.last()));
        assert(b.len() > 0);
        assert(b.contains(b.last()));
        assert(a.last() == b.last()) by {
            let i = choose|i: int| 0 <= i < b.len() && b[i] == a.last();
            let j = choose|j: int| 0 <= j < a.len() && a[j] == b.last();
            if i < b.len() - 1 && j < a.len() - 1 {
                assert(precedes(b[i], b[b.len() - 1]));
                assert(precedes(a[j], a[a.len() - 1]));
            }
        }
        let rest = set.remove(a.last());
        lemma_list_without_last(a, set);
        lemma_list_without_last(b, set);
        law_one_list(a.drop_last(), b.drop_last(), rest);
        assert(a =~= a.drop_last().push(a.last()));
        assert(b =~= b.drop_last().push(b.last()));
    }
}

/// A list without its last match lists the set without this match.
proof fn lemma_list_without_last(s: Seq<SimpleMatch>, set: Set<SimpleMatch>)
    requires
        lists(s, set),
        s.len() > 0,
    ensures
        lists(s.drop_last(), set.remove(s.last())),
{
    let t = s.drop_last();
    assert forall|i: int, j: int| 0 <= i < j < t.len() implies precedes(
        #[trigger] t[i],
        #[trigger] t[j],
    ) by {
        assert(t[i] == s[i] && t[j] == s[j]);
    }
    assert forall|x: SimpleMatch| t.contains(x) <==> set.remove(s.last()).contains(x) by {
        assert(s.to_set().contains(x) <==> set.contains(x));
        if t.contains(x) {
            let i = choose|i: int| 0 <= i < t.len() && t[i] == x;
            assert(s[i] == x);
            assert(precedes(s[i], s[s.len() - 1]));
        }
        if set.remove(s.last()).contains(x) {
            let i = choose|i: int| 0 <= i < s.len() && s[i] == x;
            assert(t[i] == x);
        }
    }
    assert(t.to_set() =~= set.remove(s.last()));
}

/// What rewriting gives depends neither on the order of the matches nor on how
/// often each of them occurs.
pub proof fn law_rewriting_ignores_order(
    a: Seq<SimpleMatch>,
    b: Seq<SimpleMatch>,
    rewritten_a: Seq<SimpleMatch>,
    rewritten_b: Seq<SimpleMatch>,
    enhancer: Seq<(u32, u32)>,
    automatons: Seq<QueryWordAutomaton>,
)
    requires
        a.to_set() == b.to_set(),
        lists(rewritten_a, rewritten(a.to_set(), enhancer, automatons)),
        lists(rewritten_b, rewritten(b.to_set(), enhancer, automatons)),
    ensures
        rewritten_a == rewritten_b,
{
    law_one_list(rewritten_a, rewritten_b, rewritten(a.to_set(), enhancer, automatons));
}

/// In a list of matches each word of the query has one group, in the order of
/// the words. It holds all matches of the word, and begins with the one that
/// precedes all others.
pub proof fn law_one_group_for_each_word(matches: Seq<SimpleMatch>, set: Set<SimpleMatch>)
    requires
        lists(matches, set),
    ensures
        forall|g: int, h: int|
            0 <= g < h < runs::<SimpleMatch, ByQueryIndex>(matches).len() ==> (#[trigger] runs::<
                SimpleMatch,
                ByQueryIndex,
            >(matches)[g])[0].query_index < (#[trigger] runs::<SimpleMatch, ByQueryIndex>(
                matches,
            )[h])[0].query_index,
        forall|g: int, x: SimpleMatch|
            0 <= g < runs::<SimpleMatch, ByQueryIndex>(matches).len() ==> (#[trigger] runs::<
                SimpleMatch,
                ByQueryIndex,
            >(matches)[g].contains(x) <==> set.contains(x) && x.query_index == runs::<
                SimpleMatch,
                ByQueryIndex,
            >(matches)[g][0].query_index),
        forall|g: int, x: SimpleMatch|
            0 <= g < runs::<SimpleMatch, ByQueryIndex>(matches).len() && #[trigger] runs::<
                SimpleMatch,
                ByQueryIndex,
            >(matches)[g].contains(x) ==> x == runs::<SimpleMatch, ByQueryIndex>(matches)[g][0]
                || precedes(runs::<SimpleMatch, ByQueryIndex>(matches)[g][0], x),
{
    let r = runs::<SimpleMatch, ByQueryIndex>(matches);
    assert(keys_ascend::<SimpleMatch, ByQueryIndex>(matches));
    lemma_runs::<SimpleMatch, ByQueryIndex>(matches);
    lemma_runs_of_ascending::<SimpleMatch, ByQueryIndex>(matches);
    assert forall|g: int, x: SimpleMatch| 0 <= g < r.len() implies (#[trigger] r[g].contains(x)
        <==> set.contains(x) && x.query_index == r[g][0].query_index) by {
        assert(matches.to_set().contains(x) <==> set.contains(x));
    }
    assert forall|g: int, x: SimpleMatch|
        0 <= g < r.len() && #[trigger] r[g].contains(x) implies x == r[g][0] || precedes(
        r[g][0],
        x,
    ) by {
        let i = choose|i: int| 0 <= i < r[g].len() && r[g][i] == x;
        if i > 0 {
            lemma_runs_keep_order::<SimpleMatch, ByQueryIndex>(
                matches,
                |a: SimpleMatch, b: SimpleMatch| precedes(a, b),
            );
            assert(precedes(r[g][0], r[g][i]));
        }
    }
}

/// The matches of a document are those of its raw matches.
proof fn lemma_matches_of<P: PostingsLists>(
    raw_matches: Seq<BareMatch<P::Index>>,
    postings_lists: P,
    x: SimpleMatch,
)
    ensures
        matches_of(raw_matches, postings_lists).contains(x) <==> exists|m: BareMatch<P::Index>|
            #[trigger] raw_matches.contains(m) && matches_at(m, postings_lists).contains(x),
    decreases raw_matches.len(),
{
    if raw_matches.len() > 0 {
        let rest = raw_matches.drop_last();
        let last = raw_matches.last();
        let before = matches_of(rest, postings_lists);
        let added = matches_at(last, postings_lists);
        lemma_matches_of(rest, postings_lists, x);
        lemma_contains_added(before, added, x);
        assert(raw_matches.contains(last));
        assert forall|m: BareMatch<P::Index>| #[trigger] raw_matches.contains(m) <==> rest.contains(
            m,
        ) || m == last by {
            if raw_matches.contains(m) {
                let i = choose|i: int| 0 <= i < raw_matches.len() && raw_matches[i] == m;
                if i < rest.len() {
                    assert(rest[i] == m);
                }
            }
            if rest.contains(m) {
                let i = choose|i: int| 0 <= i < rest.len() && rest[i] == m;
                assert(raw_matches[i] == m);
            }
        }
        if exists|m: BareMatch<P::Index>| #[trigger]
            raw_matches.contains(m) && matches_at(m, postings_lists).contains(x) {
            let m = choose|m: BareMatch<P::Index>| #[trigger]
                raw_matches.contains(m) && matches_at(m, postings_lists).contains(x);
            assert(rest.contains(m) || m == last);
        }
        if before.contains(x) {
            let m = choose|m: BareMatch<P::Index>| #[trigger]
                rest.contains(m) && matches_at(m, postings_lists).contains(x);
            assert(raw_matches.contains(m));
        }
    }
}

/// Preparing the matches of a document gives the same, however its raw matches
/// are sorted: sorting them for another criterion changes nothing.
pub proof fn law_preparing_ignores_raw_order<P: PostingsLists>(
    a: Seq<BareMatch<P::Index>>,
    b: Seq<BareMatch<P::Index>>,
    postings_lists: P,
)
    requires
        a.to_multiset() == b.to_multiset(),
    ensures
        matches_of(a, postings_lists).to_set() == matches_of(b, postings_lists).to_set(),
{
    lemma_same_records(a, b);
    assert forall|x: SimpleMatch| matches_of(a, postings_lists).contains(x) <==> matches_of(
        b,
        postings_lists,
    ).contains(x) by {
        lemma_matches_of(a, postings_lists, x);
        lemma_matches_of(b, postings_lists, x);
        if exists|m: BareMatch<P::Index>| #[trigger]
            a.contains(m) && matches_at(m, postings_lists).contains(x) {
            let m = choose|m: BareMatch<P::Index>| #[trigger]
                a.contains(m) && matches_at(m, postings_lists).contains(x);
            assert(b.contains(m));
        }
        if exists|m: BareMatch<P::Index>| #[trigger]
            b.contains(m) && matches_at(m, postings_lists).contains(x) {
            let m = choose|m: BareMatch<P::Index>| #[trigger]
                b.contains(m) && matches_at(m, postings_lists).contains(x);
            assert(a.contains(m));
        }
    }
    assert(matches_of(a, postings_lists).to_set() =~= matches_of(b, postings_lists).to_set());
}

/// Preparing the matches of a document twice is preparing them once.
pub proof fn law_prepare_matches_twice<P: PostingsLists>(
    before: RawDocument<P::Index>,
    once: RawDocument<P::Index>,
    twice: RawDocument<P::Index>,
    postings_lists: P,
    enhancer: Seq<(u32, u32)>,
    automatons: Seq<QueryWordAutomaton>,
)
    requires
        raw_matches_preparable(before, postings_lists, enhancer, automatons),
        raw_matches_prepared(before, once, postings_lists, enhancer, automatons),
        raw_matches_prepared(once, twice, postings_lists, enhancer, automatons),
    ensures
        raw_matches_preparable(once, postings_lists, enhancer, automatons),
        twice.raw_matches == once.raw_matches,
        twice.processed_distances == once.processed_distances,
        twice.processed_matches@ == once.processed_matches@,
{
    if before.processed_matches@.len() == 0 && once.processed_matches@.len() == 0 {
        law_one_list(
            once.processed_matches@,
            twice.processed_matches@,
            rewritten(
                matches_of(before.raw_matches@, postings_lists).to_set(),
                enhancer,
                automatons,
            ),
        );
    }
}

/// The matches of a phrase stay in pairs that stand side by side: beside one
/// that begins a phrase and stays, one that follows stays, and the other way round.
pub proof fn law_phrases_stay_in_pairs(
    matches: Set<SimpleMatch>,
    automatons: Seq<QueryWordAutomaton>,
    m: SimpleMatch,
)
    requires
        stays(matches, automatons, m),
    ensures
        leads(matches, automatons, m.attribute, m.query_index as int) ==> exists|
            second: SimpleMatch,
        | #[trigger]
            stays(matches, automatons, second) && side_by_side(m, second),
        follows(matches, automatons, m) ==> exists|first: SimpleMatch| #[trigger]
            stays(matches, automatons, first) && side_by_side(first, m),
{
    if leads(matches, automatons, m.attribute, m.query_index as int) {
        assert(!follows(matches, automatons, m));
        let second = choose|second: SimpleMatch| #[trigger]
            matches.contains(second) && side_by_side(m, second);
        assert(follows(matches, automatons, second));
        assert(stays(matches, automatons, second));
    }
    if follows(matches, automatons, m) {
        let first = choose|first: SimpleMatch| #[trigger]
            matches.contains(first) && side_by_side(first, m);
        assert(leads(matches, automatons, m.attribute, first.query_index as int));
        assert(!follows(matches, automatons, first));
        assert(stays(matches, automatons, first));
    }
}

/// Every rewritten match comes from a match that stayed, in the same
/// attribute, with the same distance and exactness. Every match that stayed is
/// there, moved to its position, for the first word that it stands for.
pub proof fn law_rewriting_keeps_matches(
    matches: Set<SimpleMatch>,
    enhancer: Seq<(u32, u32)>,
    automatons: Seq<QueryWordAutomaton>,
)
    ensures
        forall|x: SimpleMatch| #[trigger]
            rewritten(matches, enhancer, automatons).contains(x) ==> exists|m: SimpleMatch|
                #[trigger] stays(matches, automatons, m) && m.attribute == x.attribute && m.distance
                    == x.distance && m.is_exact == x.is_exact,
        forall|m: SimpleMatch| #[trigger]
            stays(matches, automatons, m) ==> rewritten(matches, enhancer, automatons).contains(
                moved(staying(matches, automatons), enhancer, m),
            ),
{
    let k = staying(matches, automatons);
    assert forall|x: SimpleMatch| #[trigger]
        rewritten(matches, enhancer, automatons).contains(x) implies exists|m: SimpleMatch|
        #[trigger] stays(matches, automatons, m) && m.attribute == x.attribute && m.distance
            == x.distance && m.is_exact == x.is_exact by {
        let m = choose|m: SimpleMatch| #[trigger] k.contains(m) && comes_from(k, enhancer, m, x);
        assert(stays(matches, automatons, m));
    }
    assert forall|m: SimpleMatch| #[trigger] stays(matches, automatons, m) implies rewritten(
        matches,
        enhancer,
        automatons,
    ).contains(moved(k, enhancer, m)) by {
        assert(k.contains(m));
        assert(comes_from(k, enhancer, m, moved(k, enhancer, m)));
    }
}

/// Where no match at the next position answers a word of the padding of a match,
/// its entire padding is inserted. Where one answers the first word of the
/// padding, the padding moves nothing on.
pub proof fn law_padding_gives_way(
    matches: Set<SimpleMatch>,
    enhancer: Seq<(u32, u32)>,
    m: SimpleMatch,
)
    requires
        matches.contains(m),
    ensures
        later_positions(matches, m).len() == 0 || (forall|i: int|
            0 <= i < padding_len(enhancer, m) ==> !#[trigger] answers(
                matches,
                enhancer,
                m.attribute,
                later_positions(matches, m)[0],
                padding_word(enhancer, m, i),
            )) ==> forall|i: int|
            0 <= i < padding_len(enhancer, m) ==> padded(matches, enhancer).contains(
                #[trigger] padding_match(matches, enhancer, m, i),
            ),
        later_positions(matches, m).len() > 0 && padding_len(enhancer, m) > 0 && answers(
            matches,
            enhancer,
            m.attribute,
            later_positions(matches, m)[0],
            padding_word(enhancer, m, 0),
        ) ==> preceding(matches, enhancer, m) == 0,
{
    let len = padding_len(enhancer, m);
    if later_positions(matches, m).len() == 0 || (forall|i: int|
        0 <= i < len ==> !#[trigger] answers(
            matches,
            enhancer,
            m.attribute,
            later_positions(matches, m)[0],
            padding_word(enhancer, m, i),
        )) {
        if later_positions(matches, m).len() > 0 && len >= 0 {
            lemma_first_answered(matches, enhancer, m, 0, 0);
            lemma_unanswered(matches, enhancer, m, 0);
        }
        assert forall|i: int| 0 <= i < len implies padded(matches, enhancer).contains(
            #[trigger] padding_match(matches, enhancer, m, i),
        ) by {
            assert(inserted(matches, enhancer, m, i));
            assert(comes_from(matches, enhancer, m, padding_match(matches, enhancer, m, i)));
        }
    }
}

/// Where no word of the padding is answered, none is found.
proof fn lemma_unanswered(
    matches: Set<SimpleMatch>,
    enhancer: Seq<(u32, u32)>,
    m: SimpleMatch,
    i: int,
)
    requires
        0 <= i,
        forall|j: int|
            i <= j < padding_len(enhancer, m) ==> !#[trigger] answers(
                matches,
                enhancer,
                m.attribute,
                later_positions(matches, m)[0],
                padding_word(enhancer, m, j),
            ),
    ensures
        first_answered(matches, enhancer, m, 0, i) == padding_len(enhancer, m),
    decreases padding_len(enhancer, m) - i,
{
    if i < padding_len(enhancer, m) {
        assert(!answers(
            matches,
            enhancer,
            m.attribute,
            later_positions(matches, m)[0],
            padding_word(enhancer, m, i),
        ));
        lemma_unanswered(matches, enhancer, m, i + 1);
    }
}

/// Some width is that of a position.
proof fn lemma_some_width(
    matches: Set<SimpleMatch>,
    enhancer: Seq<(u32, u32)>,
    attribute: u16,
    position: int,
    bound: int,
)
    requires
        bound >= 0,
        forall|m: SimpleMatch| #[trigger]
            matches.contains(m) && m.attribute == attribute && m.word_index == position
                ==> preceding(matches, enhancer, m) <= bound,
    ensures
        is_width(
            matches,
            enhancer,
            attribute,
            position,
            width(matches, enhancer, attribute, position),
        ),
    decreases bound,
{
    if is_width(matches, enhancer, attribute, position, bound) {
        lemma_width(matches, enhancer, attribute, position, bound);
    } else {
        lemma_some_width(matches, enhancer, attribute, position, bound - 1);
    }
}

/// Each position has a width.
pub proof fn lemma_has_width(
    matches: Set<SimpleMatch>,
    enhancer: Seq<(u32, u32)>,
    attribute: u16,
    position: int,
)
    ensures
        is_width(
            matches,
            enhancer,
            attribute,
            position,
            width(matches, enhancer, attribute, position),
        ),
{
    assert forall|m: SimpleMatch| #[trigger]
        matches.contains(m) && m.attribute == attribute && m.word_index
            == position implies preceding(matches, enhancer, m) <= u32::MAX by {
        lemma_first_answered(matches, enhancer, m, 0, 0);
    }
    lemma_some_width(matches, enhancer, attribute, position, u32::MAX as int);
}

/// Later positions are moved on by at least as much.
pub proof fn lemma_shift_grows(
    matches: Set<SimpleMatch>,
    enhancer: Seq<(u32, u32)>,
    attribute: u16,
    from: int,
    to: int,
)
    requires
        0 <= from <= to,
    ensures
        0 <= shift(matches, enhancer, attribute, from) <= shift(matches, enhancer, attribute, to),
    decreases to,
{
    if to > 0 {
        lemma_has_width(matches, enhancer, attribute, to - 1);
        lemma_shift_grows(
            matches,
            enhancer,
            attribute,
            if from < to {
                from
            } else {
                to - 1
            },
            to - 1,
        );
    }
}

/// Padding never changes which of two matches of an attribute comes first, as
/// long as what they are moved on by is a position itself.
pub proof fn law_padding_keeps_order(
    matches: Set<SimpleMatch>,
    enhancer: Seq<(u32, u32)>,
    a: SimpleMatch,
    b: SimpleMatch,
)
    requires
        a.attribute == b.attribute,
        a.word_index < b.word_index,
        shift(matches, enhancer, b.attribute, b.word_index as int) <= u16::MAX,
    ensures
        moved_position(matches, enhancer, a) < moved_position(matches, enhancer, b),
{
    lemma_shift_grows(
        matches,
        enhancer,
        a.attribute,
        a.word_index as int,
        b.word_index as int,
    );
}

/// Where no word belongs to a phrase, and each word stands for itself alone,
/// there is nothing to rewrite.
pub proof fn law_nothing_to_rewrite(
    matches: Set<SimpleMatch>,
    enhancer: Seq<(u32, u32)>,
    automatons: Seq<QueryWordAutomaton>,
)
    requires
        forall|m: SimpleMatch| #[trigger]
            matches.contains(m) ==> {
                &&& m.query_index < automatons.len()
                &&& automatons[m.query_index as int].phrase_query is None
                &&& m.query_index < enhancer.len()
                &&& enhancer[m.query_index as int].0 == m.query_index
                &&& enhancer[m.query_index as int].1 == m.query_index + 1
            },
    ensures
        rewritable(matches, enhancer, automatons),
        rewritten(matches, enhancer, automatons) == matches,
{
    assert forall|m: SimpleMatch| #[trigger] matches.contains(m) implies !follows(
        matches,
        automatons,
        m,
    ) by {
        if follows(matches, automatons, m) {
            let other = choose|other: SimpleMatch| #[trigger]
                matches.contains(other) && other.attribute == m.attribute && other.query_index
                    == m.query_index - 1;
            assert(automatons[other.query_index as int].phrase_query is None);
        }
    }
    assert(staying(matches, automatons) =~= matches);
    assert forall|m: SimpleMatch| #[trigger] matches.contains(m) implies preceding(
        matches,
        enhancer,
        m,
    ) == 0 by {}
    assert forall|m: SimpleMatch| #[trigger] matches.contains(m) implies moved_position(
        matches,
        enhancer,
        m,
    ) == m.word_index && moved(matches, enhancer, m) == m by {
        lemma_no_shift(matches, enhancer, m.attribute, m.word_index as int);
    }
    assert forall|x: SimpleMatch| padded(matches, enhancer).contains(x) <==> matches.contains(
        x,
    ) by {
        if matches.contains(x) {
            assert(comes_from(matches, enhancer, x, x));
        }
        if padded(matches, enhancer).contains(x) {
            let m = choose|m: SimpleMatch| #[trigger]
                matches.contains(m) && comes_from(matches, enhancer, m, x);
            assert(moved(matches, enhancer, m) == m);
        }
    }
    assert(padded(matches, enhancer) =~= matches);
}

/// Where no padding is inserted, nothing is moved on.
proof fn lemma_no_shift(
    matches: Set<SimpleMatch>,
    enhancer: Seq<(u32, u32)>,
    attribute: u16,
    position: int,
)
    requires
        forall|m: SimpleMatch| #[trigger]
            matches.contains(m) ==> preceding(matches, enhancer, m) == 0,
    ensures
        shift(matches, enhancer, attribute, position) == 0,
    decreases position,
{
    if position > 0 {
        lemma_no_shift(matches, enhancer, attribute, position - 1);
        lemma_width(matches, enhancer, attribute, position - 1, 0);
    }
}

/// Whether two sets hold the same matches of an attribute.
spec fn agree(a: Set<SimpleMatch>, b: Set<SimpleMatch>, attribute: u16) -> bool {
    forall|m: SimpleMatch|
        #![trigger a.contains(m)]
        #![trigger b.contains(m)]
        m.attribute == attribute ==> (a.contains(m) <==> b.contains(m))
}

/// Where two sets agree, the same words begin phrases.
proof fn lemma_agree_leads(
    a: Set<SimpleMatch>,
    b: Set<SimpleMatch>,
    automatons: Seq<QueryWordAutomaton>,
    attribute: u16,
    query_index: int,
)
    requires
        agree(a, b, attribute),
    ensures
        leads(a, automatons, attribute, query_index) == leads(
            b,
            automatons,
            attribute,
            query_index,
        ),
    decreases query_index,
{
    if query_index > 0 {
        lemma_agree_leads(a, b, automatons, attribute, query_index - 1);
    }
    if occurs(a, attribute, query_index) {
        let m = choose|m: SimpleMatch| #[trigger]
            a.contains(m) && m.attribute == attribute && m.query_index == query_index;
        assert(b.contains(m));
    }
    if occurs(b, attribute, query_index) {
        let m = choose|m: SimpleMatch| #[trigger]
            b.contains(m) && m.attribute == attribute && m.query_index == query_index;
        assert(a.contains(m));
    }
}

/// Where two sets agree, the same matches follow the beginning of a phrase,
/// and the same matches stay.
proof fn lemma_agree_stays(
    a: Set<SimpleMatch>,
    b: Set<SimpleMatch>,
    automatons: Seq<QueryWordAutomaton>,
    m: SimpleMatch,
)
    requires
        agree(a, b, m.attribute),
    ensures
        follows(a, automatons, m) == follows(b, automatons, m),
        stays(a, automatons, m) == stays(b, automatons, m),
{
    lemma_agree_leads(a, b, automatons, m.attribute, m.query_index - 1);
    assert(forall|x: SimpleMatch|
        side_by_side(x, m) || side_by_side(m, x) ==> (#[trigger] a.contains(x) <==> b.contains(x)));
    if exists|x: SimpleMatch| #[trigger] a.contains(x) && side_by_side(x, m) {
        let x = choose|x: SimpleMatch| #[trigger] a.contains(x) && side_by_side(x, m);
        assert(b.contains(x));
    }
    if exists|x: SimpleMatch| #[trigger] b.contains(x) && side_by_side(x, m) {
        let x = choose|x: SimpleMatch| #[trigger] b.contains(x) && side_by_side(x, m);
        assert(a.contains(x));
    }
    if exists|x: SimpleMatch| #[trigger] a.contains(x) && side_by_side(m, x) {
        let x = choose|x: SimpleMatch| #[trigger] a.contains(x) && side_by_side(m, x);
        assert(b.contains(x));
    }
    if exists|x: SimpleMatch| #[trigger] b.contains(x) && side_by_side(m, x) {
        let x = choose|x: SimpleMatch| #[trigger] b.contains(x) && side_by_side(m, x);
        assert(a.contains(x));
    }
}

/// Where two sets agree, something matches at the same positions.
proof fn lemma_agree_positions(
    a: Set<SimpleMatch>,
    b: Set<SimpleMatch>,
    attribute: u16,
    from: int,
    to: int,
)
    requires
        agree(a, b, attribute),
    ensures
        positions(a, attribute, from, to) == positions(b, attribute, from, to),
    decreases to - from,
{
    if from < to {
        lemma_agree_positions(a, b, attribute, from, to - 1);
        if matched_at(a, attribute, to - 1) {
            let m = choose|m: SimpleMatch| #[trigger]
                a.contains(m) && m.attribute == attribute && m.word_index == to - 1;
            assert(b.contains(m));
        }
        if matched_at(b, attribute, to - 1) {
            let m = choose|m: SimpleMatch| #[trigger]
                b.contains(m) && m.attribute == attribute && m.word_index == to - 1;
            assert(a.contains(m));
        }
    }
}

/// Where two sets agree, the same words are answered.
proof fn lemma_agree_first_answered(
    a: Set<SimpleMatch>,
    b: Set<SimpleMatch>,
    enhancer: Seq<(u32, u32)>,
    m: SimpleMatch,
    x: int,
    i: int,
)
    requires
        agree(a, b, m.attribute),
        later_positions(a, m) == later_positions(b, m),
    ensures
        first_answered(a, enhancer, m, x, i) == first_answered(b, enhancer, m, x, i),
    decreases padding_len(enhancer, m) - i,
{
    if i < padding_len(enhancer, m) {
        lemma_agree_first_answered(a, b, enhancer, m, x, i + 1);
        let position = later_positions(a, m)[x];
        let word = padding_word(enhancer, m, i);
        if answers(a, enhancer, m.attribute, position, word) {
            let n = choose|n: SimpleMatch| #[trigger]
                a.contains(n) && n.attribute == m.attribute && n.word_index == position
                    && first_word(enhancer, n) == word;
            assert(b.contains(n));
        }
        if answers(b, enhancer, m.attribute, position, word) {
            let n = choose|n: SimpleMatch| #[trigger]
                b.contains(n) && n.attribute == m.attribute && n.word_index == position
                    && first_word(enhancer, n) == word;
            assert(a.contains(n));
        }
    }
}

/// Where two sets agree, the same words of the padding are found, inserted and
/// given a position.
proof fn lemma_agree_padding(
    a: Set<SimpleMatch>,
    b: Set<SimpleMatch>,
    enhancer: Seq<(u32, u32)>,
    m: SimpleMatch,
)
    requires
        agree(a, b, m.attribute),
    ensures
        preceding(a, enhancer, m) == preceding(b, enhancer, m),
        forall|i: int| #[trigger] inserted(a, enhancer, m, i) == inserted(b, enhancer, m, i),
        forall|i: int| #[trigger] placed(a, enhancer, m, i) == placed(b, enhancer, m, i),
{
    lemma_agree_positions(a, b, m.attribute, m.word_index + 1, POSITIONS as int);
    assert forall|x: int| #[trigger] found_at(a, enhancer, m, x) == found_at(
        b,
        enhancer,
        m,
        x,
    ) by {
        lemma_agree_first_answered(a, b, enhancer, m, x, x);
    }
    assert forall|x: int| #[trigger] looked_at(a, enhancer, m, x) == looked_at(
        b,
        enhancer,
        m,
        x,
    ) by {
        assert(forall|y: int| #[trigger]
            found_at(b, enhancer, m, y) == found_at(a, enhancer, m, y));
    }
    assert forall|i: int| #[trigger] inserted(a, enhancer, m, i) == inserted(
        b,
        enhancer,
        m,
        i,
    ) by {
        lemma_agree_exists(a, b, enhancer, m, i);
    }
    assert forall|i: int| #[trigger] placed(a, enhancer, m, i) == placed(b, enhancer, m, i) by {
        lemma_agree_exists(a, b, enhancer, m, i);
    }
}

/// Where the same words are found at the positions that are looked at, the
/// same ones are inserted and given a position.
proof fn lemma_agree_exists(
    a: Set<SimpleMatch>,
    b: Set<SimpleMatch>,
    enhancer: Seq<(u32, u32)>,
    m: SimpleMatch,
    i: int,
)
    requires
        preceding(a, enhancer, m) == preceding(b, enhancer, m),
        forall|x: int| #[trigger] found_at(a, enhancer, m, x) == found_at(b, enhancer, m, x),
        forall|x: int| #[trigger] looked_at(a, enhancer, m, x) == looked_at(b, enhancer, m, x),
    ensures
        inserted(a, enhancer, m, i) == inserted(b, enhancer, m, i),
        placed(a, enhancer, m, i) == placed(b, enhancer, m, i),
{
    if inserted(a, enhancer, m, i) && i >= preceding(a, enhancer, m) {
        let x = choose|x: int|
            looked_at(a, enhancer, m, x) && i == #[trigger] found_at(a, enhancer, m, x);
        assert(looked_at(b, enhancer, m, x) && i == found_at(b, enhancer, m, x));
    }
    if inserted(b, enhancer, m, i) && i >= preceding(a, enhancer, m) {
        let x = choose|x: int|
            looked_at(b, enhancer, m, x) && i == #[trigger] found_at(b, enhancer, m, x);
        assert(looked_at(a, enhancer, m, x) && i == found_at(a, enhancer, m, x));
    }
    if placed(a, enhancer, m, i) && i >= preceding(a, enhancer, m) {
        let x = choose|x: int|
            looked_at(a, enhancer, m, x) && x <= i <= #[trigger] found_at(a, enhancer, m, x);
        assert(looked_at(b, enhancer, m, x) && x <= i <= found_at(b, enhancer, m, x));
    }
    if placed(b, enhancer, m, i) && i >= preceding(a, enhancer, m) {
        let x = choose|x: int|
            looked_at(b, enhancer, m, x) && x <= i <= #[trigger] found_at(b, enhancer, m, x);
        assert(looked_at(a, enhancer, m, x) && x <= i <= found_at(a, enhancer, m, x));
    }
}

/// Where two sets agree, positions are moved on by as much.
proof fn lemma_agree_shift(
    a: Set<SimpleMatch>,
    b: Set<SimpleMatch>,
    enhancer: Seq<(u32, u32)>,
    attribute: u16,
    position: int,
)
    requires
        agree(a, b, attribute),
    ensures
        shift(a, enhancer, attribute, position) == shift(b, enhancer, attribute, position),
    decreases position,
{
    if position > 0 {
        lemma_agree_shift(a, b, enhancer, attribute, position - 1);
        let w = width(a, enhancer, attribute, position - 1);
        lemma_has_width(a, enhancer, attribute, position - 1);
        assert forall|m: SimpleMatch| #[trigger]
            b.contains(m) && m.attribute == attribute && m.word_index
                == position - 1 implies a.contains(m) && preceding(b, enhancer, m) <= w by {
            lemma_agree_padding(a, b, enhancer, m);
        }
        if w > 0 {
            let m = choose|m: SimpleMatch| #[trigger]
                a.contains(m) && m.attribute == attribute && m.word_index == position - 1
                    && preceding(a, enhancer, m) == w;
            lemma_agree_padding(a, b, enhancer, m);
            assert(b.contains(m));
        }
        assert(is_width(b, enhancer, attribute, position - 1, w));
        lemma_width(b, enhancer, attribute, position - 1, w);
    }
}

/// Where two sets agree, the same comes from a match.
proof fn lemma_agree_comes_from(
    a: Set<SimpleMatch>,
    b: Set<SimpleMatch>,
    enhancer: Seq<(u32, u32)>,
    m: SimpleMatch,
    x: SimpleMatch,
)
    requires
        agree(a, b, m.attribute),
    ensures
        comes_from(a, enhancer, m, x) == comes_from(b, enhancer, m, x),
        match_fits(a, enhancer, m) == match_fits(b, enhancer, m),
{
    lemma_agree_padding(a, b, enhancer, m);
    lemma_agree_shift(a, b, enhancer, m.attribute, m.word_index as int);
    assert forall|i: int| #[trigger] padding_match(a, enhancer, m, i) == padding_match(
        b,
        enhancer,
        m,
        i,
    ) by {}
    if comes_from(a, enhancer, m, x) && x != moved(a, enhancer, m) {
        let i = choose|i: int| #[trigger]
            inserted(a, enhancer, m, i) && x == padding_match(a, enhancer, m, i);
        assert(inserted(b, enhancer, m, i));
    }
    if comes_from(b, enhancer, m, x) && x != moved(b, enhancer, m) {
        let i = choose|i: int| #[trigger]
            inserted(b, enhancer, m, i) && x == padding_match(b, enhancer, m, i);
        assert(inserted(a, enhancer, m, i));
    }
    assert forall|i: int| #[trigger] placed(b, enhancer, m, i) == placed(a, enhancer, m, i) by {
        assert(placed(a, enhancer, m, i) == placed(b, enhancer, m, i));
    }
    if match_fits(a, enhancer, m) {
        assert forall|i: int| #[trigger] placed(b, enhancer, m, i) implies padding_position(
            b,
            enhancer,
            m,
            i,
        ) < POSITIONS by {
            assert(placed(a, enhancer, m, i));
        }
    }
    if match_fits(b, enhancer, m) {
        assert forall|i: int| #[trigger] placed(a, enhancer, m, i) implies padding_position(
            a,
            enhancer,
            m,
            i,
        ) < POSITIONS by {
            assert(placed(b, enhancer, m, i));
        }
    }
}

/// The matches of one attribute.
pub open spec fn of_attribute(matches: Set<SimpleMatch>, attribute: u16) -> Set<SimpleMatch> {
    matches.filter(|m: SimpleMatch| m.attribute == attribute)
}

/// Attributes are rewritten apart from each other: what rewriting gives in one
/// attribute is what it gives of the matches of this attribute alone. Padding in
/// particular is only applied within an attribute.
pub proof fn law_attributes_are_rewritten_apart(
    matches: Set<SimpleMatch>,
    enhancer: Seq<(u32, u32)>,
    automatons: Seq<QueryWordAutomaton>,
    attribute: u16,
)
    ensures
        of_attribute(rewritten(matches, enhancer, automatons), attribute) == rewritten(
            of_attribute(matches, attribute),
            enhancer,
            automatons,
        ),
        rewritable(matches, enhancer, automatons) ==> rewritable(
            of_attribute(matches, attribute),
            enhancer,
            automatons,
        ),
{
    let here = of_attribute(matches, attribute);
    let k = staying(matches, automatons);
    let k_here = staying(here, automatons);
    assert(agree(matches, here, attribute));
    assert forall|m: SimpleMatch| m.attribute == attribute implies k.contains(m)
        == k_here.contains(m) && follows(matches, automatons, m) == follows(
        here,
        automatons,
        m,
    ) by {
        lemma_agree_stays(matches, here, automatons, m);
    }
    assert(agree(k, k_here, attribute));
    let all = rewritten(matches, enhancer, automatons);
    let apart = rewritten(here, enhancer, automatons);
    assert forall|x: SimpleMatch| of_attribute(all, attribute).contains(x) <==> apart.contains(
        x,
    ) by {
        if of_attribute(all, attribute).contains(x) {
            let m = choose|m: SimpleMatch| #[trigger]
                k.contains(m) && comes_from(k, enhancer, m, x);
            lemma_agree_comes_from(k, k_here, enhancer, m, x);
            assert(k_here.contains(m));
        }
        if apart.contains(x) {
            let m = choose|m: SimpleMatch| #[trigger]
                k_here.contains(m) && comes_from(k_here, enhancer, m, x);
            assert(here.contains(m));
            lemma_agree_comes_from(k, k_here, enhancer, m, x);
            assert(k.contains(m));
        }
    }
    assert(of_attribute(all, attribute) =~= apart);
    if rewritable(matches, enhancer, automatons) {
        assert forall|m: SimpleMatch| #[trigger] here.contains(m) implies if follows(
            here,
            automatons,
            m,
        ) {
            m.word_index < u16::MAX
        } else {
            m.query_index < automatons.len()
        } by {
            assert(matches.contains(m));
            lemma_agree_stays(matches, here, automatons, m);
        }
        assert forall|m: SimpleMatch| #[trigger] k_here.contains(m) implies match_fits(
            k_here,
            enhancer,
            m,
        ) by {
            assert(here.contains(m));
            assert(k.contains(m));
            lemma_agree_comes_from(k, k_here, enhancer, m, m);
        }
        assert(padding_fits(k_here, enhancer));
    }
}

/// A list of a set is sorted by query index, then distance, attribute, position and
/// exactness, each match comes before a different one, and it holds what the set holds.
pub proof fn law_lists_are_sorted(s: Seq<SimpleMatch>, set: Set<SimpleMatch>)
    requires
        lists(s, set),
    ensures
        forall|i: int, j: int|
            0 <= i < j < s.len() ==> {
                let (a, b) = (#[trigger] s[i], #[trigger] s[j]);
                &&& a != b
                &&& a.query_index <= b.query_index
                &&& a.query_index == b.query_index ==> a.distance <= b.distance
                &&& a.query_index == b.query_index && a.distance == b.distance ==> a.attribute
                    <= b.attribute
                &&& a.query_index == b.query_index && a.distance == b.distance && a.attribute
                    == b.attribute ==> a.word_index <= b.word_index
                &&& a.query_index == b.query_index && a.distance == b.distance && a.attribute
                    == b.attribute && a.word_index == b.word_index ==> !a.is_exact && b.is_exact
            },
        forall|x: SimpleMatch| #[trigger] s.contains(x) <==> set.contains(x),
{
    assert forall|i: int, j: int| 0 <= i < j < s.len() implies {
        let (a, b) = (#[trigger] s[i], #[trigger] s[j]);
        &&& a != b
        &&& a.query_index <= b.query_index
        &&& a.query_index == b.query_index ==> a.distance <= b.distance
        &&& a.query_index == b.query_index && a.distance == b.distance ==> a.attribute
            <= b.attribute
        &&& a.query_index == b.query_index && a.distance == b.distance && a.attribute
            == b.attribute ==> a.word_index <= b.word_index
        &&& a.query_index == b.query_index && a.distance == b.distance && a.attribute
            == b.attribute && a.word_index == b.word_index ==> !a.is_exact && b.is_exact
    } by {
        assert(precedes(s[i], s[j]));
    }
    assert forall|x: SimpleMatch| #[trigger] s.contains(x) <==> set.contains(x) by {
        assert(s.to_set().contains(x) <==> s.contains(x));
    }
}

/// A document without raw matches has no matches. One more raw match adds one match
/// for each place of its whole postings list, in order, with the word, distance and
/// exactness of the raw match and the attribute and position of the place.
pub proof fn law_matches_of_one_more_raw_match<P: PostingsLists>(
    raw_matches: Seq<BareMatch<P::Index>>,
    m: BareMatch<P::Index>,
    postings_lists: P,
)
    ensures
        matches_of(Seq::<BareMatch<P::Index>>::empty(), postings_lists).len() == 0,
        matches_of(raw_matches.push(m), postings_lists).len() == matches_of(
            raw_matches,
            postings_lists,
        ).len() + postings_lists.list(m.postings_list).len(),
        forall|k: int|
            0 <= k < matches_of(raw_matches, postings_lists).len() ==> #[trigger] matches_of(
                raw_matches.push(m),
                postings_lists,
            )[k] == matches_of(raw_matches, postings_lists)[k],
        forall|j: int|
            0 <= j < postings_lists.list(m.postings_list).len() ==> {
                let place = #[trigger] postings_lists.list(m.postings_list)[j];
                let x = matches_of(raw_matches.push(m), postings_lists)[matches_of(
                    raw_matches,
                    postings_lists,
                ).len() + j];
                &&& x.query_index == m.query_index
                &&& x.distance == m.distance
                &&& x.is_exact == m.is_exact
                &&& x.attribute == place.attribute
                &&& x.word_index == place.word_index
            },
{
    assert(raw_matches.push(m).drop_last() =~= raw_matches);
}

/// The matches of a document are there for every raw match and every place of its
/// whole postings list, and no others are.
pub proof fn law_every_place_is_a_match<P: PostingsLists>(
    raw_matches: Seq<BareMatch<P::Index>>,
    postings_lists: P,
    x: SimpleMatch,
)
    ensures
        matches_of(raw_matches, postings_lists).contains(x) <==> exists|i: int, j: int|
            0 <= i < raw_matches.len() && 0 <= j < postings_lists.list(
                raw_matches[i].postings_list,
            ).len() && {
                let place = #[trigger] postings_lists.list(raw_matches[i].postings_list)[j];
                &&& x.query_index == raw_matches[i].query_index
                &&& x.distance == raw_matches[i].distance
                &&& x.is_exact == raw_matches[i].is_exact
                &&& x.attribute == place.attribute
                &&& x.word_index == place.word_index
            },
{
    lemma_matches_of(raw_matches, postings_lists, x);
    if matches_of(raw_matches, postings_lists).contains(x) {
        let m = choose|m: BareMatch<P::Index>| #[trigger]
            raw_matches.contains(m) && matches_at(m, postings_lists).contains(x);
        let i = choose|i: int| 0 <= i < raw_matches.len() && raw_matches[i] == m;
        let all = matches_at(m, postings_lists);
        let j = choose|j: int| 0 <= j < all.len() && all[j] == x;
        let place = postings_lists.list(raw_matches[i].postings_list)[j];
        assert(x.attribute == place.attribute);
    }
    if exists|i: int, j: int|
        0 <= i < raw_matches.len() && 0 <= j < postings_lists.list(
            raw_matches[i].postings_list,
        ).len() && {
            let place = #[trigger] postings_lists.list(raw_matches[i].postings_list)[j];
            &&& x.query_index == raw_matches[i].query_index
            &&& x.distance == raw_matches[i].distance
            &&& x.is_exact == raw_matches[i].is_exact
            &&& x.attribute == place.attribute
            &&& x.word_index == place.word_index
        } {
        let (i, j) = choose|i: int, j: int|
            0 <= i < raw_matches.len() && 0 <= j < postings_lists.list(
                raw_matches[i].postings_list,
            ).len() && {
                let place = #[trigger] postings_lists.list(raw_matches[i].postings_list)[j];
                &&& x.query_index == raw_matches[i].query_index
                &&& x.distance == raw_matches[i].distance
                &&& x.is_exact == raw_matches[i].is_exact
                &&& x.attribute == place.attribute
                &&& x.word_index == place.word_index
            };
        assert(raw_matches.contains(raw_matches[i]));
        assert(matches_at(raw_matches[i], postings_lists)[j] == x);
    }
}

/// Documents can be prepared exactly if the postings lists of those without
/// processed matches are there and their matches can be rewritten. Preparing
/// changes nothing but missing matches, which are the rewritten ones, listed.
pub proof fn law_preparing_matches<P: PostingsLists>(
    before: Seq<RawDocument<P::Index>>,
    after: Seq<RawDocument<P::Index>>,
    postings_lists: P,
    enhancer: Seq<(u32, u32)>,
    automatons: Seq<QueryWordAutomaton>,
)
    ensures
        (forall|d: int|
            0 <= d < before.len() && before[d].processed_matches@.len() == 0 ==> rewritable(
                matches_of((#[trigger] before[d]).raw_matches@, postings_lists).to_set(),
                enhancer,
                automatons,
            )) && (forall|d: int, i: int|
            #![trigger before[d].raw_matches@[i]]
            0 <= d < before.len() && before[d].processed_matches@.len() == 0 && 0 <= i
                < before[d].raw_matches@.len() ==> postings_lists.holds(
                before[d].raw_matches@[i].postings_list,
            )) ==> all_raw_matches_preparable(before, postings_lists, enhancer, automatons),
        all_raw_matches_prepared(before, after, postings_lists, enhancer, automatons) ==> {
            &&& after.len() == before.len()
            &&& forall|d: int|
                0 <= d < before.len() ==> {
                    &&& (#[trigger] after[d]).raw_matches == before[d].raw_matches
                    &&& after[d].processed_distances == before[d].processed_distances
                    &&& before[d].processed_matches@.len() > 0 ==> after[d].processed_matches
                        == before[d].processed_matches
                    &&& before[d].processed_matches@.len() == 0 ==> lists(
                        after[d].processed_matches@,
                        rewritten(
                            matches_of(before[d].raw_matches@, postings_lists).to_set(),
                            enhancer,
                            automatons,
                        ),
                    )
                }
        },
{
    if all_raw_matches_prepared(before, after, postings_lists, enhancer, automatons) {
        assert forall|d: int| 0 <= d < before.len() implies raw_matches_prepared(
            before[d],
            #[trigger] after[d],
            postings_lists,
            enhancer,
            automatons,
        ) by {}
    }
}

} // verus!
