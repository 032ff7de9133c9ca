//! Which matches of phrases stay.

use vstd::prelude::*;

use crate::phrase::{leads, side_by_side, staying};
use crate::types::{QueryWordAutomaton, SimpleMatch};

verus! {

/// Whether the first word of some phrase, `query_index`, matches in an attribute.
pub open spec fn phrase_starts(
    matches: Set<SimpleMatch>,
    automatons: Seq<QueryWordAutomaton>,
    attribute: u16,
    query_index: int,
) -> bool {
    &&& 0 <= query_index < automatons.len()
    &&& automatons[query_index].phrase_query matches Some((index, _))
    &&& index == 0
    &&& exists|m: SimpleMatch| #[trigger]
        matches.contains(m) && m.attribute == attribute && m.query_index == query_index
}

/// Where first words of phrases follow each other without a gap, every other one of
/// them, from the first on, begins a phrase.
proof fn lemma_every_other_word_leads(
    matches: Set<SimpleMatch>,
    automatons: Seq<QueryWordAutomaton>,
    attribute: u16,
    from: int,
    query_index: int,
)
    requires
        0 <= from,
        from - 1 <= query_index,
        forall|w: int|
            from <= w <= query_index ==> #[trigger] phrase_starts(
                matches,
                automatons,
                attribute,
                w,
            ),
        from == 0 || !phrase_starts(matches, automatons, attribute, from - 1),
    ensures
        leads(matches, automatons, attribute, query_index) <==> query_index >= from && (query_index
            - from) % 2 == 0,
    decreases query_index - from + 1,
{
    assert forall|w: int| leads(matches, automatons, attribute, w) implies #[trigger] phrase_starts(
        matches,
        automatons,
        attribute,
        w,
    ) by {}
    if query_index >= from {
        lemma_every_other_word_leads(matches, automatons, attribute, from, query_index - 1);
        assert(phrase_starts(matches, automatons, attribute, query_index));
    } else if from > 0 {
        assert(!phrase_starts(matches, automatons, attribute, from - 1));
    }
}

/// Which matches stay. Let `from` be where the first words of phrases begin that
/// match in the attribute of `m` and lead up to its word without a gap. Where their
/// number is odd, the last of them begins a phrase, and `m` stays exactly if it
/// stands right before a match of that word. Otherwise `m` stays if its word belongs
/// to no phrase, and if it is the first of one, exactly if it stands right after
/// a match of the next word. Nothing but matches stays.
pub proof fn law_which_matches_stay(
    matches: Set<SimpleMatch>,
    automatons: Seq<QueryWordAutomaton>,
    m: SimpleMatch,
    from: int,
)
    requires
        0 <= from <= m.query_index,
        forall|w: int|
            from <= w < m.query_index ==> #[trigger] phrase_starts(
                matches,
                automatons,
                m.attribute,
                w,
            ),
        from == 0 || !phrase_starts(matches, automatons, m.attribute, from - 1),
    ensures
        !matches.contains(m) ==> !staying(matches, automatons).contains(m),
        matches.contains(m) && (m.query_index - from) % 2 == 1 ==> (staying(
            matches,
            automatons,
        ).contains(m) <==> exists|first: SimpleMatch| #[trigger]
            matches.contains(first) && first.attribute == m.attribute && first.query_index
                == m.query_index - 1 && first.word_index == m.word_index + 1),
        matches.contains(m) && (m.query_index - from) % 2 == 0
            && automatons[m.query_index as int].phrase_query is None ==> staying(
            matches,
            automatons,
        ).contains(m),
        matches.contains(m) && (m.query_index - from) % 2 == 0
            && automatons[m.query_index as int].phrase_query is Some ==> (staying(
            matches,
            automatons,
        ).contains(m) <==> (automatons[m.query_index as int].phrase_query matches Some((index, _))
            && index == 0) && exists|second: SimpleMatch| #[trigger]
            matches.contains(second) && second.attribute == m.attribute && second.query_index
                == m.query_index + 1 && second.word_index == m.word_index - 1),
{
    lemma_every_other_word_leads(
        matches,
        automatons,
        m.attribute,
        from,
        m.query_index - 1,
    );
    if exists|first: SimpleMatch| #[trigger]
        matches.contains(first) && first.attribute == m.attribute && first.query_index
            == m.query_index - 1 && first.word_index == m.word_index + 1 {
        let first = choose|first: SimpleMatch| #[trigger]
            matches.contains(first) && first.attribute == m.attribute && first.query_index
                == m.query_index - 1 && first.word_index == m.word_index + 1;
        assert(side_by_side(first, m));
    }
    if exists|second: SimpleMatch| #[trigger]
        matches.contains(second) && second.attribute == m.attribute && second.query_index
            == m.query_index + 1 && second.word_index == m.word_index - 1 {
        let second = choose|second: SimpleMatch| #[trigger]
            matches.contains(second) && second.attribute == m.attribute && second.query_index
                == m.query_index + 1 && second.word_index == m.word_index - 1;
        assert(side_by_side(m, second));
    }
}

} // verus!
