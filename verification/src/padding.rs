//! Padding of matches whose word stands for several words of the query.
//!
//! Such a match is replaced by one match for each of these words, at
//! consecutive positions, and what follows in the attribute moves on by as much.

use vstd::prelude::*;

use crate::grouping::{
    contents, keys_ascend, lemma_runs, lemma_runs_keep_order, lemma_runs_of_ascending,
    linear_groups, runs, ByAttribute, ByWordIndex,
};
use crate::query_enhancer::QueryEnhancer;
use crate::sorting::{key_at_most, lemma_contains_pushed, sorted_by, ByPosition, SortKey};
use crate::types::SimpleMatch;

verus! {

/// One more than the last position of an attribute.
pub const POSITIONS: u32 = 0x10000;

/// Whether something matches at a position of an attribute.
pub open spec fn matched_at(matches: Set<SimpleMatch>, attribute: u16, position: int) -> bool {
    exists|m: SimpleMatch| #[trigger]
        matches.contains(m) && m.attribute == attribute && m.word_index == position
}

/// The positions from `from` up to `to` at which something matches, in order.
pub open spec fn positions(
    matches: Set<SimpleMatch>,
    attribute: u16,
    from: int,
    to: int,
) -> Seq<int>
    decreases to - from,
{
    if to <= from {
        Seq::empty()
    } else if matched_at(matches, attribute, to - 1) {
        positions(matches, attribute, from, to - 1).push(to - 1)
    } else {
        positions(matches, attribute, from, to - 1)
    }
}

/// The positions after a match at which something matches, in order.
pub open spec fn later_positions(matches: Set<SimpleMatch>, m: SimpleMatch) -> Seq<int> {
    positions(matches, m.attribute, m.word_index + 1, POSITIONS as int)
}

/// The first of the words that a match stands for.
pub open spec fn first_word(enhancer: Seq<(u32, u32)>, m: SimpleMatch) -> u16 {
    enhancer[m.query_index as int].0 as u16
}

/// How many words a match stands for, besides the first.
pub open spec fn padding_len(enhancer: Seq<(u32, u32)>, m: SimpleMatch) -> int {
    enhancer[m.query_index as int].1 - enhancer[m.query_index as int].0 - 1
}

/// The `i`th of the words that a match stands for, besides the first.
pub open spec fn padding_word(enhancer: Seq<(u32, u32)>, m: SimpleMatch, i: int) -> u16 {
    (enhancer[m.query_index as int].0 + 1 + i) as u16
}

/// Whether a match at this position stands for `word` first.
pub open spec fn answers(
    matches: Set<SimpleMatch>,
    enhancer: Seq<(u32, u32)>,
    attribute: u16,
    position: int,
    word: u16,
) -> bool {
    exists|n: SimpleMatch| #[trigger]
        matches.contains(n) && n.attribute == attribute && n.word_index == position && first_word(
            enhancer,
            n,
        ) == word
}

/// The first word of the padding of `m`, from the `i`th on, that a match at
/// the `x`th later position answers; the length of the padding if there is none.
pub open spec fn first_answered(
    matches: Set<SimpleMatch>,
    enhancer: Seq<(u32, u32)>,
    m: SimpleMatch,
    x: int,
    i: int,
) -> int
    decreases padding_len(enhancer, m) - i,
{
    if i >= padding_len(enhancer, m) {
        padding_len(enhancer, m)
    } else if answers(
        matches,
        enhancer,
        m.attribute,
        later_positions(matches, m)[x],
        padding_word(enhancer, m, i),
    ) {
        i
    } else {
        first_answered(matches, enhancer, m, x, i + 1)
    }
}

/// The word of the padding of `m` that is found at the `x`th later position:
/// the first one answered there, the first `x` words left out.
pub open spec fn found_at(
    matches: Set<SimpleMatch>,
    enhancer: Seq<(u32, u32)>,
    m: SimpleMatch,
    x: int,
) -> int {
    first_answered(matches, enhancer, m, x, x)
}

/// Whether the `x`th later position is looked at: a word of the padding was
/// found at all positions before it.
pub open spec fn looked_at(
    matches: Set<SimpleMatch>,
    enhancer: Seq<(u32, u32)>,
    m: SimpleMatch,
    x: int,
) -> bool {
    &&& 0 <= x < later_positions(matches, m).len()
    &&& forall|y: int|
        0 <= y < x ==> #[trigger] found_at(matches, enhancer, m, y) < padding_len(enhancer, m)
}

/// How many words of the padding precede the first one that is found in the
/// document: all of them, if none is found at the next position.
pub open spec fn preceding(
    matches: Set<SimpleMatch>,
    enhancer: Seq<(u32, u32)>,
    m: SimpleMatch,
) -> int {
    if later_positions(matches, m).len() == 0 {
        padding_len(enhancer, m)
    } else {
        found_at(matches, enhancer, m, 0)
    }
}

/// Whether the `i`th word of the padding of `m` is inserted: it precedes the
/// first one that is found, or is one that is found.
pub open spec fn inserted(
    matches: Set<SimpleMatch>,
    enhancer: Seq<(u32, u32)>,
    m: SimpleMatch,
    i: int,
) -> bool {
    &&& 0 <= i < padding_len(enhancer, m)
    &&& i < preceding(matches, enhancer, m) || exists|x: int|
        looked_at(matches, enhancer, m, x) && i == #[trigger] found_at(matches, enhancer, m, x)
}

/// Whether the `i`th word of the padding of `m` is given a position: it is
/// inserted, or was looked for.
pub open spec fn placed(
    matches: Set<SimpleMatch>,
    enhancer: Seq<(u32, u32)>,
    m: SimpleMatch,
    i: int,
) -> bool {
    &&& 0 <= i < padding_len(enhancer, m)
    &&& i < preceding(matches, enhancer, m) || exists|x: int|
        looked_at(matches, enhancer, m, x) && x <= i <= #[trigger] found_at(
            matches,
            enhancer,
            m,
            x,
        )
}

/// Whether `width` is the largest number of words that precede the first one
/// found, among the matches at a position.
pub open spec fn is_width(
    matches: Set<SimpleMatch>,
    enhancer: Seq<(u32, u32)>,
    attribute: u16,
    position: int,
    width: int,
) -> bool {
    &&& width >= 0
    &&& forall|m: SimpleMatch| #[trigger]
        matches.contains(m) && m.attribute == attribute && m.word_index == position ==> preceding(
            matches,
            enhancer,
            m,
        ) <= width
    &&& width > 0 ==> exists|m: SimpleMatch| #[trigger]
        matches.contains(m) && m.attribute == attribute && m.word_index == position && preceding(
            matches,
            enhancer,
            m,
        ) == width
}

/// By how much the matches at a position move on what follows.
pub open spec fn width(
    matches: Set<SimpleMatch>,
    enhancer: Seq<(u32, u32)>,
    attribute: u16,
    position: int,
) -> int {
    choose|width: int| is_width(matches, enhancer, attribute, position, width)
}

/// By how much a position of an attribute is moved on: by the width of all
/// positions before it.
pub open spec fn shift(
    matches: Set<SimpleMatch>,
    enhancer: Seq<(u32, u32)>,
    attribute: u16,
    position: int,
) -> int
    decreases position,
{
    if position <= 0 {
        0
    } else {
        shift(matches, enhancer, attribute, position - 1) + width(
            matches,
            enhancer,
            attribute,
            position - 1,
        )
    }
}

/// The position to which a match is moved.
pub open spec fn moved_position(
    matches: Set<SimpleMatch>,
    enhancer: Seq<(u32, u32)>,
    m: SimpleMatch,
) -> int {
    m.word_index + shift(matches, enhancer, m.attribute, m.word_index as int) as u16
}

/// The position of the `i`th word of the padding of a match.
pub open spec fn padding_position(
    matches: Set<SimpleMatch>,
    enhancer: Seq<(u32, u32)>,
    m: SimpleMatch,
    i: int,
) -> int {
    moved_position(matches, enhancer, m) + (i + 1) as u16
}

/// A match, moved to its position, for the first word that it stands for.
pub open spec fn moved(
    matches: Set<SimpleMatch>,
    enhancer: Seq<(u32, u32)>,
    m: SimpleMatch,
) -> SimpleMatch {
    SimpleMatch {
        query_index: first_word(enhancer, m),
        word_index: moved_position(matches, enhancer, m) as u16,
        ..m
    }
}

/// The match for the `i`th word of the padding of a match.
pub open spec fn padding_match(
    matches: Set<SimpleMatch>,
    enhancer: Seq<(u32, u32)>,
    m: SimpleMatch,
    i: int,
) -> SimpleMatch {
    SimpleMatch {
        query_index: padding_word(enhancer, m, i),
        word_index: padding_position(matches, enhancer, m, i) as u16,
        ..m
    }
}

/// Whether a match comes from `m`: it is `m` moved to its position, or
/// inserted as padding of `m`.
pub open spec fn comes_from(
    matches: Set<SimpleMatch>,
    enhancer: Seq<(u32, u32)>,
    m: SimpleMatch,
    x: SimpleMatch,
) -> bool {
    x == moved(matches, enhancer, m) || exists|i: int| #[trigger]
        inserted(matches, enhancer, m, i) && x == padding_match(matches, enhancer, m, i)
}

/// The matches with their padding.
pub open spec fn padded(
    matches: Set<SimpleMatch>,
    enhancer: Seq<(u32, u32)>,
) -> Set<SimpleMatch> {
    Set::new(
        |x: SimpleMatch|
            exists|m: SimpleMatch| #[trigger]
                matches.contains(m) && comes_from(matches, enhancer, m, x),
    )
}

/// Whether a match can be padded: its word stands for at least one word, and
/// all positions that it and its padding are given exist.
pub open spec fn match_fits(
    matches: Set<SimpleMatch>,
    enhancer: Seq<(u32, u32)>,
    m: SimpleMatch,
) -> bool {
    &&& m.query_index < enhancer.len()
    &&& enhancer[m.query_index as int].0 < enhancer[m.query_index as int].1
    &&& moved_position(matches, enhancer, m) < POSITIONS
    &&& forall|i: int| #[trigger]
        placed(matches, enhancer, m, i) ==> padding_position(matches, enhancer, m, i) < POSITIONS
}

/// Whether all matches can be padded.
pub open spec fn padding_fits(matches: Set<SimpleMatch>, enhancer: Seq<(u32, u32)>) -> bool {
    forall|m: SimpleMatch| #[trigger]
        matches.contains(m) ==> match_fits(matches, enhancer, m)
}

/// Makes the match for the `i`th word of the padding of a match.
fn make_padding(m: &SimpleMatch, first: u32, position: u16, i: usize) -> (padding: SimpleMatch)
    requires
        first + 1 + i <= u32::MAX,
        position + ((i + 1) as u16) < POSITIONS,
    ensures
        padding == (SimpleMatch {
            query_index: (first + 1 + i) as u16,
            word_index: (position + (i + 1) as u16) as u16,
            ..*m
        }),
{
    let word_index: u16 = position + (i + 1) as u16;
    let query_index: u16 = (first + 1 + i as u32) as u16;
    SimpleMatch { query_index, word_index, ..*m }
}

/// Inserts the first `count` words of the padding of a match.
fn push_padding(
    m: &SimpleMatch,
    first: u32,
    position: u16,
    count: usize,
    padded_matches: &mut Vec<SimpleMatch>,
    Ghost(matches): Ghost<Set<SimpleMatch>>,
    Ghost(enhancer): Ghost<Seq<(u32, u32)>>,
)
    requires
        first == enhancer[m.query_index as int].0,
        position == moved_position(matches, enhancer, *m),
        count <= padding_len(enhancer, *m),
        forall|i: int|
            0 <= i < count ==> #[trigger] padding_position(matches, enhancer, *m, i) < POSITIONS,
    ensures
        forall|x: SimpleMatch| #[trigger]
            final(padded_matches)@.contains(x) <==> old(padded_matches)@.contains(x) || exists|
                i: int,
            |
                0 <= i < count && x == #[trigger] padding_match(matches, enhancer, *m, i),
{
    let mut i: usize = 0;
    while i < count
        invariant
            i <= count,
            first == enhancer[m.query_index as int].0,
            position == moved_position(matches, enhancer, *m),
            count <= padding_len(enhancer, *m),
            forall|i: int|
                0 <= i < count ==> #[trigger] padding_position(matches, enhancer, *m, i)
                    < POSITIONS,
            forall|x: SimpleMatch| #[trigger]
                padded_matches@.contains(x) <==> old(padded_matches)@.contains(x) || exists|j: int|
                    0 <= j < i && x == #[trigger] padding_match(matches, enhancer, *m, j),
        decreases count - i,
    {
        let ghost before = padded_matches@;
        assert(padding_position(matches, enhancer, *m, i as int) < POSITIONS);
        let padding: SimpleMatch = make_padding(m, first, position, i);
        assert(padding == padding_match(matches, enhancer, *m, i as int));
        padded_matches.push(padding);
        assert forall|x: SimpleMatch| #[trigger]
            padded_matches@.contains(x) <==> old(padded_matches)@.contains(x) || exists|j: int|
                0 <= j < i + 1 && x == #[trigger] padding_match(matches, enhancer, *m, j) by {
            lemma_contains_pushed(before, padding, x);
        }
        i += 1;
    }
}

/// Whether a match of the group stands for `word` first.
fn group_answers(group: &[SimpleMatch], enhancer: &QueryEnhancer, word: u16) -> (answered: bool)
    requires
        forall|j: int|
            0 <= j < group@.len() ==> (#[trigger] group@[j]).query_index < enhancer@.len(),
    ensures
        answered <==> exists|j: int|
            0 <= j < group@.len() && first_word(enhancer@, #[trigger] group@[j]) == word,
{
    let mut j: usize = 0;
    while j < group.len()
        invariant
            j <= group@.len(),
            forall|j: int|
                0 <= j < group@.len() ==> (#[trigger] group@[j]).query_index < enhancer@.len(),
            forall|k: int| 0 <= k < j ==> first_word(enhancer@, #[trigger] group@[k]) != word,
        decreases group@.len() - j,
    {
        let replacement = enhancer.replacement(group[j].query_index as u32);
        if replacement.start as u16 == word {
            return true;
        }
        j += 1;
    }
    false
}

/// Looks in the group at a later position for a word of the padding of a match,
/// the first `x` words left out.
fn find_padding(
    m: &SimpleMatch,
    first: u32,
    position: u16,
    len: usize,
    x: usize,
    group: &[SimpleMatch],
    enhancer: &QueryEnhancer,
    Ghost(matches): Ghost<Set<SimpleMatch>>,
) -> (found: Option<(usize, SimpleMatch)>)
    requires
        first == enhancer@[m.query_index as int].0,
        len == padding_len(enhancer@, *m),
        position == moved_position(matches, enhancer@, *m),
        forall|n: SimpleMatch| #[trigger]
            group@.contains(n) <==> matches.contains(n) && n.attribute == m.attribute
                && n.word_index == later_positions(matches, *m)[x as int],
        forall|n: SimpleMatch| #[trigger]
            matches.contains(n) ==> n.query_index < enhancer@.len(),
        looked_at(matches, enhancer@, *m, x as int),
        match_fits(matches, enhancer@, *m),
    ensures
        match found {
            Some((i, padding)) => {
                &&& i < len
                &&& i == found_at(matches, enhancer@, *m, x as int)
                &&& padding == padding_match(matches, enhancer@, *m, i as int)
            },
            None => found_at(matches, enhancer@, *m, x as int) == len,
        },
{
    let mut i: usize = x;
    while i < len
        invariant
            x <= i,
            first == enhancer@[m.query_index as int].0,
            len == padding_len(enhancer@, *m),
            position == moved_position(matches, enhancer@, *m),
            forall|n: SimpleMatch| #[trigger]
                group@.contains(n) <==> matches.contains(n) && n.attribute == m.attribute
                    && n.word_index == later_positions(matches, *m)[x as int],
            forall|n: SimpleMatch| #[trigger]
                matches.contains(n) ==> n.query_index < enhancer@.len(),
            looked_at(matches, enhancer@, *m, x as int),
            match_fits(matches, enhancer@, *m),
            found_at(matches, enhancer@, *m, x as int) == first_answered(
                matches,
                enhancer@,
                *m,
                x as int,
                i as int,
            ),
        decreases len - i,
    {
        proof {
            lemma_first_answered(matches, enhancer@, *m, x as int, i as int);
            assert(placed(matches, enhancer@, *m, i as int));
        }
        let padding: SimpleMatch = make_padding(m, first, position, i);
        assert forall|j: int| 0 <= j < group@.len() implies (#[trigger] group@[j]).query_index
            < enhancer@.len() by {
            assert(group@.contains(group@[j]));
        }
        let answered: bool = group_answers(group, enhancer, padding.query_index);
        assert(answered == answers(
            matches,
            enhancer@,
            m.attribute,
            later_positions(matches, *m)[x as int],
            padding.query_index,
        )) by {
            if answered {
                let j = choose|j: int|
                    0 <= j < group@.len() && first_word(enhancer@, #[trigger] group@[j])
                        == padding.query_index;
                assert(group@.contains(group@[j]));
            }
            if answers(
                matches,
                enhancer@,
                m.attribute,
                later_positions(matches, *m)[x as int],
                padding.query_index,
            ) {
                let n = choose|n: SimpleMatch| #[trigger]
                    matches.contains(n) && n.attribute == m.attribute && n.word_index
                        == later_positions(matches, *m)[x as int] && first_word(enhancer@, n)
                        == padding.query_index;
                assert(group@.contains(n));
                let j = choose|j: int| 0 <= j < group@.len() && group@[j] == n;
                assert(first_word(enhancer@, group@[j]) == padding.query_index);
            }
        }
        if answered {
            return Some((i, padding));
        }
        i += 1;
    }
    None
}

/// Where a word of the padding is found lies between where the search begins
/// and the end of the padding.
pub proof fn lemma_first_answered(
    matches: Set<SimpleMatch>,
    enhancer: Seq<(u32, u32)>,
    m: SimpleMatch,
    x: int,
    i: int,
)
    ensures
        first_answered(matches, enhancer, m, x, i) <= padding_len(enhancer, m),
        i <= padding_len(enhancer, m) ==> i <= first_answered(matches, enhancer, m, x, i),
    decreases padding_len(enhancer, m) - i,
{
    if i < padding_len(enhancer, m) {
        lemma_first_answered(matches, enhancer, m, x, i + 1);
    }
}

/// Whether `groups` are the matches of one attribute by position, one group for
/// each position at which something matches, in order.
spec fn grouped(
    matches: Set<SimpleMatch>,
    attribute: u16,
    groups: Seq<Seq<SimpleMatch>>,
) -> bool {
    &&& forall|g: int| 0 <= g < groups.len() ==> (#[trigger] groups[g]).len() > 0
    &&& forall|g: int, h: int|
        0 <= g < h < groups.len() ==> (#[trigger] groups[g])[0].word_index < (
        #[trigger] groups[h])[0].word_index
    &&& forall|g: int, x: SimpleMatch|
        0 <= g < groups.len() ==> (#[trigger] groups[g].contains(x) <==> matches.contains(x)
            && x.attribute == attribute && x.word_index == groups[g][0].word_index)
    &&& forall|x: SimpleMatch| #[trigger]
        matches.contains(x) && x.attribute == attribute ==> exists|g: int|
            0 <= g < groups.len() && (#[trigger] groups[g]).contains(x)
}

/// The position of each group.
spec fn group_positions(groups: Seq<Seq<SimpleMatch>>) -> Seq<int> {
    groups.map_values(|group: Seq<SimpleMatch>| group[0].word_index as int)
}

/// Something matches exactly at the positions of the groups.
proof fn lemma_matched_at(
    matches: Set<SimpleMatch>,
    attribute: u16,
    groups: Seq<Seq<SimpleMatch>>,
    position: int,
)
    requires
        grouped(matches, attribute, groups),
    ensures
        matched_at(matches, attribute, position) <==> group_positions(groups).contains(position),
{
    let all = group_positions(groups);
    if matched_at(matches, attribute, position) {
        let x = choose|x: SimpleMatch| #[trigger]
            matches.contains(x) && x.attribute == attribute && x.word_index == position;
        let g = choose|g: int| 0 <= g < groups.len() && (#[trigger] groups[g]).contains(x);
        assert(groups[g].contains(x));
        assert(all[g] == position);
    }
    if all.contains(position) {
        let g = choose|g: int| 0 <= g < all.len() && all[g] == position;
        assert(groups[g].len() > 0);
        assert(groups[g].contains(groups[g][0]));
    }
}

/// The positions from `from` on at which something matches are those of the
/// groups from the `g`th on.
proof fn lemma_positions(
    matches: Set<SimpleMatch>,
    attribute: u16,
    groups: Seq<Seq<SimpleMatch>>,
    from: int,
    to: int,
    g: int,
    h: int,
)
    requires
        grouped(matches, attribute, groups),
        0 <= g <= h <= groups.len(),
        forall|k: int| 0 <= k < g ==> #[trigger] group_positions(groups)[k] < from,
        forall|k: int| g <= k < h ==> from <= #[trigger] group_positions(groups)[k] < to,
        forall|k: int| h <= k < groups.len() ==> to <= #[trigger] group_positions(groups)[k],
        from <= to,
    ensures
        positions(matches, attribute, from, to) == group_positions(groups).subrange(g, h),
    decreases to - from,
{
    let all = group_positions(groups);
    if to <= from {
        if g < h {
            assert(from <= all[g] < to);
        }
        assert(all.subrange(g, h) =~= Seq::empty());
    } else {
        lemma_matched_at(matches, attribute, groups, to - 1);
        if matched_at(matches, attribute, to - 1) {
            let k = choose|k: int| 0 <= k < all.len() && all[k] == to - 1;
            assert(g <= k < h);
            if k < h - 1 {
                assert(groups[k][0].word_index < groups[h - 1][0].word_index);
                assert(all[h - 1] < to);
            }
            assert(k == h - 1);
            assert forall|j: int| g <= j < h - 1 implies #[trigger] all[j] < to - 1 by {
                assert(groups[j][0].word_index < groups[h - 1][0].word_index);
            }
            lemma_positions(matches, attribute, groups, from, to - 1, g, h - 1);
            assert(all.subrange(g, h - 1).push(to - 1) =~= all.subrange(g, h));
        } else {
            assert forall|k: int| g <= k < h implies #[trigger] all[k] < to - 1 by {
                assert(all.contains(all[k]));
            }
            lemma_positions(matches, attribute, groups, from, to - 1, g, h);
        }
    }
}

/// The positions after a match of the `g`th group are those of the groups
/// after it.
proof fn lemma_later_positions(
    matches: Set<SimpleMatch>,
    attribute: u16,
    groups: Seq<Seq<SimpleMatch>>,
    g: int,
    m: SimpleMatch,
)
    requires
        grouped(matches, attribute, groups),
        0 <= g < groups.len(),
        groups[g].contains(m),
    ensures
        later_positions(matches, m).len() == groups.len() - g - 1,
        forall|x: int|
            0 <= x < groups.len() - g - 1 ==> #[trigger] later_positions(matches, m)[x]
                == groups[g + 1 + x][0].word_index,
{
    let all = group_positions(groups);
    let from = m.word_index + 1;
    assert forall|k: int| 0 <= k < g + 1 implies #[trigger] all[k] < from by {
        if k < g {
            assert(groups[k][0].word_index < groups[g][0].word_index);
        }
    }
    assert forall|k: int| g + 1 <= k < groups.len() implies from <= #[trigger] all[k]
        < POSITIONS by {
        assert(groups[g][0].word_index < groups[k][0].word_index);
    }
    lemma_positions(
        matches,
        attribute,
        groups,
        from,
        POSITIONS as int,
        g + 1,
        groups.len() as int,
    );
}

/// Inserts a match, moved to its position, and its padding. Returns how many
/// words of the padding precede the first one that is found.
fn push_padded(
    m: &SimpleMatch,
    nexts: &[&[SimpleMatch]],
    padding: u64,
    enhancer: &QueryEnhancer,
    padded_matches: &mut Vec<SimpleMatch>,
    Ghost(matches): Ghost<Set<SimpleMatch>>,
) -> (count: u32)
    requires
        padding_fits(matches, enhancer@),
        matches.contains(*m),
        padding == shift(matches, enhancer@, m.attribute, m.word_index as int),
        nexts@.len() == later_positions(matches, *m).len(),
        forall|x: int, n: SimpleMatch|
            0 <= x < nexts@.len() ==> (#[trigger] nexts@[x]@.contains(n) <==> matches.contains(n)
                && n.attribute == m.attribute && n.word_index == later_positions(matches, *m)[x]),
    ensures
        count == preceding(matches, enhancer@, *m),
        forall|x: SimpleMatch| #[trigger]
            final(padded_matches)@.contains(x) <==> old(padded_matches)@.contains(x) || comes_from(
                matches,
                enhancer@,
                *m,
                x,
            ),
{
    let ghost e = enhancer@;
    assert(match_fits(matches, e, *m));
    let replacement = enhancer.replacement(m.query_index as u32);
    let first: u32 = replacement.start;
    let len: usize = (replacement.end - replacement.start - 1) as usize;
    let position: u16 = m.word_index + padding as u16;
    let moved_match = SimpleMatch { query_index: first as u16, word_index: position, ..*m };
    padded_matches.push(moved_match);
    let ghost start = padded_matches@;
    proof {
        assert(moved_match == moved(matches, e, *m));
        assert forall|x: SimpleMatch| #[trigger]
            start.contains(x) <==> old(padded_matches)@.contains(x) || x == moved(
                matches,
                e,
                *m,
            ) by {
            lemma_contains_pushed(old(padded_matches)@, moved_match, x);
        }
    }
    let mut count: usize = len;
    let mut x: usize = 0;
    let mut searching: bool = true;
    // look ahead for matches that already answer to words of the padding
    while searching && x < nexts.len()
        invariant
            x <= nexts@.len(),
            e == enhancer@,
            padding_fits(matches, enhancer@),
            matches.contains(*m),
            match_fits(matches, e, *m),
            first == e[m.query_index as int].0,
            len == padding_len(e, *m),
            position == moved_position(matches, e, *m),
            nexts@.len() == later_positions(matches, *m).len(),
            forall|x: int, n: SimpleMatch|
                0 <= x < nexts@.len() ==> (#[trigger] nexts@[x]@.contains(n) <==> matches.contains(
                    n,
                ) && n.attribute == m.attribute && n.word_index == later_positions(matches, *m)[x]),
            x > 0 ==> count == found_at(matches, e, *m, 0),
            x == 0 ==> count == len,
            forall|y: int| 0 <= y < x ==> #[trigger] found_at(matches, e, *m, y) < len,
            !searching ==> x < nexts@.len() && found_at(matches, e, *m, x as int) == len,
            forall|z: SimpleMatch| #[trigger]
                padded_matches@.contains(z) <==> start.contains(z) || (x > 0 && exists|i: int|
                    0 <= i < count && z == #[trigger] padding_match(matches, e, *m, i)) || exists|
                    y: int,
                |
                    0 <= y < x && z == padding_match(
                        matches,
                        e,
                        *m,
                        #[trigger] found_at(matches, e, *m, y),
                    ),
        decreases nexts@.len() - x + (if searching { 1int } else { 0int }),
    {
        assert(looked_at(matches, e, *m, x as int));
        assert forall|n: SimpleMatch| #[trigger] matches.contains(n) implies n.query_index
            < e.len() by {
            assert(match_fits(matches, e, n));
        }
        match find_padding(m, first, position, len, x, nexts[x], enhancer, Ghost(matches)) {
            Some((i, padding_found)) => {
                let ghost before = padded_matches@;
                if x == 0 {
                    // the words that precede the first one found are inserted
                    assert forall|j: int| 0 <= j < i implies #[trigger] padding_position(
                        matches,
                        e,
                        *m,
                        j,
                    ) < POSITIONS by {
                        assert(placed(matches, e, *m, j));
                    }
                    push_padding(
                        m,
                        first,
                        position,
                        i,
                        padded_matches,
                        Ghost(matches),
                        Ghost(e),
                    );
                    count = i;
                }
                let ghost middle = padded_matches@;
                padded_matches.push(padding_found);
                assert forall|z: SimpleMatch| #[trigger]
                    padded_matches@.contains(z) <==> start.contains(z) || exists|j: int|
                        0 <= j < count && z == #[trigger] padding_match(matches, e, *m, j) || exists|
                        y: int,
                    |
                        0 <= y < x + 1 && z == padding_match(
                            matches,
                            e,
                            *m,
                            #[trigger] found_at(matches, e, *m, y),
                        ) by {
                    lemma_contains_pushed(middle, padding_found, z);
                    assert(before.contains(z) <==> start.contains(z) || (x > 0 && exists|i: int|
                        0 <= i < count && z == #[trigger] padding_match(matches, e, *m, i))
                        || exists|y: int|
                        0 <= y < x && z == padding_match(
                            matches,
                            e,
                            *m,
                            #[trigger] found_at(matches, e, *m, y),
                        ));
                    assert(i == found_at(matches, e, *m, x as int));
                }
                x += 1;
            },
            None => {
                searching = false;
            },
        }
    }
    if x == 0 {
        // none was found, the entire padding is inserted
        proof {
            assert(preceding(matches, e, *m) == len);
            assert forall|j: int| 0 <= j < len implies #[trigger] padding_position(
                matches,
                e,
                *m,
                j,
            ) < POSITIONS by {
                assert(placed(matches, e, *m, j));
            }
        }
        push_padding(m, first, position, len, padded_matches, Ghost(matches), Ghost(e));
    }
    proof {
        assert(count == preceding(matches, e, *m));
        assert forall|z: SimpleMatch| #[trigger]
            padded_matches@.contains(z) <==> old(padded_matches)@.contains(z) || comes_from(
                matches,
                e,
                *m,
                z,
            ) by {
            lemma_comes_from(matches, e, *m, x as int, z);
        }
    }
    count as u32
}

/// What comes from a match: where the look ahead stops at the `x`th later
/// position, the words that precede the first one found, and those found.
proof fn lemma_comes_from(
    matches: Set<SimpleMatch>,
    enhancer: Seq<(u32, u32)>,
    m: SimpleMatch,
    x: int,
    z: SimpleMatch,
)
    requires
        0 <= x <= later_positions(matches, m).len(),
        forall|y: int|
            0 <= y < x ==> #[trigger] found_at(matches, enhancer, m, y) < padding_len(enhancer, m),
        x < later_positions(matches, m).len() ==> found_at(matches, enhancer, m, x) == padding_len(
            enhancer,
            m,
        ),
        padding_len(enhancer, m) >= 0,
    ensures
        comes_from(matches, enhancer, m, z) <==> z == moved(matches, enhancer, m) || exists|i: int|
            0 <= i < preceding(matches, enhancer, m) && z == #[trigger] padding_match(
                matches,
                enhancer,
                m,
                i,
            ) || exists|y: int|
            0 <= y < x && z == padding_match(
                matches,
                enhancer,
                m,
                #[trigger] found_at(matches, enhancer, m, y),
            ),
{
    let len = padding_len(enhancer, m);
    lemma_first_answered(matches, enhancer, m, 0, 0);
    if comes_from(matches, enhancer, m, z) && z != moved(matches, enhancer, m) {
        let i = choose|i: int| #[trigger]
            inserted(matches, enhancer, m, i) && z == padding_match(matches, enhancer, m, i);
        if i >= preceding(matches, enhancer, m) {
            let y = choose|y: int|
                looked_at(matches, enhancer, m, y) && i == #[trigger] found_at(
                    matches,
                    enhancer,
                    m,
                    y,
                );
            assert(found_at(matches, enhancer, m, x) == len || y < x);
        }
    }
    if exists|i: int|
        0 <= i < preceding(matches, enhancer, m) && z == #[trigger] padding_match(
            matches,
            enhancer,
            m,
            i,
        ) {
        let i = choose|i: int|
            0 <= i < preceding(matches, enhancer, m) && z == #[trigger] padding_match(
                matches,
                enhancer,
                m,
                i,
            );
        assert(inserted(matches, enhancer, m, i));
    }
    if exists|y: int|
        0 <= y < x && z == padding_match(
            matches,
            enhancer,
            m,
            #[trigger] found_at(matches, enhancer, m, y),
        ) {
        let y = choose|y: int|
            0 <= y < x && z == padding_match(
                matches,
                enhancer,
                m,
                #[trigger] found_at(matches, enhancer, m, y),
            );
        assert(looked_at(matches, enhancer, m, y));
        lemma_first_answered(matches, enhancer, m, y, y);
        assert(found_at(matches, enhancer, m, y) < len);
        assert(inserted(matches, enhancer, m, found_at(matches, enhancer, m, y)));
    }
}

/// A position has only one width.
pub proof fn lemma_width(
    matches: Set<SimpleMatch>,
    enhancer: Seq<(u32, u32)>,
    attribute: u16,
    position: int,
    w: int,
)
    requires
        is_width(matches, enhancer, attribute, position, w),
    ensures
        width(matches, enhancer, attribute, position) == w,
{
    let v = width(matches, enhancer, attribute, position);
    assert(is_width(matches, enhancer, attribute, position, v));
}

/// Positions at which nothing matches move nothing on.
pub proof fn lemma_shift(
    matches: Set<SimpleMatch>,
    enhancer: Seq<(u32, u32)>,
    attribute: u16,
    from: int,
    to: int,
)
    requires
        0 <= from <= to,
        forall|position: int|
            from <= position < to ==> !#[trigger] matched_at(matches, attribute, position),
    ensures
        shift(matches, enhancer, attribute, to) == shift(matches, enhancer, attribute, from),
    decreases to,
{
    if from < to {
        lemma_shift(matches, enhancer, attribute, from, to - 1);
        assert(!matched_at(matches, attribute, to - 1));
        lemma_width(matches, enhancer, attribute, to - 1, 0);
    }
}

/// The position of the `g`th group; after the last group, the end of the attribute.
spec fn group_position(groups: Seq<Seq<SimpleMatch>>, g: int) -> int {
    if g < groups.len() {
        groups[g][0].word_index as int
    } else {
        POSITIONS as int
    }
}

/// Nothing matches between two groups.
proof fn lemma_between_groups(
    matches: Set<SimpleMatch>,
    attribute: u16,
    groups: Seq<Seq<SimpleMatch>>,
    g: int,
)
    requires
        grouped(matches, attribute, groups),
        0 <= g < groups.len(),
    ensures
        group_position(groups, g) < group_position(groups, g + 1),
        forall|position: int|
            group_position(groups, g) < position < group_position(groups, g + 1)
                ==> !#[trigger] matched_at(matches, attribute, position),
        g == 0 ==> forall|position: int|
            position < group_position(groups, 0) ==> !#[trigger] matched_at(
                matches,
                attribute,
                position,
            ),
{
    let all = group_positions(groups);
    assert forall|position: int|
        group_position(groups, g) < position < group_position(groups, g + 1) implies !#[trigger] matched_at(
        matches,
        attribute,
        position,
    ) by {
        lemma_matched_at(matches, attribute, groups, position);
        if all.contains(position) {
            let h = choose|h: int| 0 <= h < all.len() && all[h] == position;
            if h < g {
                assert(groups[h][0].word_index < groups[g][0].word_index);
            } else if h > g + 1 {
                assert(groups[g + 1][0].word_index < groups[h][0].word_index);
            }
        }
    }
    if g == 0 {
        assert forall|position: int| position < group_position(groups, 0) implies !#[trigger] matched_at(
            matches,
            attribute,
            position,
        ) by {
            lemma_matched_at(matches, attribute, groups, position);
            if all.contains(position) {
                let h = choose|h: int| 0 <= h < all.len() && all[h] == position;
                if h > 0 {
                    assert(groups[0][0].word_index < groups[h][0].word_index);
                }
            }
        }
    }
}

/// Whether `x` comes from a match of an attribute before a position.
spec fn comes_from_before(
    matches: Set<SimpleMatch>,
    enhancer: Seq<(u32, u32)>,
    attribute: u16,
    position: int,
    x: SimpleMatch,
) -> bool {
    exists|m: SimpleMatch| #[trigger]
        matches.contains(m) && m.attribute == attribute && m.word_index < position && comes_from(
            matches,
            enhancer,
            m,
            x,
        )
}

/// Inserts the matches at one position with their padding. Returns by how much
/// they move on what follows.
fn push_group(
    group: &[SimpleMatch],
    nexts: &[&[SimpleMatch]],
    padding: u64,
    enhancer: &QueryEnhancer,
    padded_matches: &mut Vec<SimpleMatch>,
    Ghost(matches): Ghost<Set<SimpleMatch>>,
    Ghost(attribute): Ghost<u16>,
    Ghost(position): Ghost<u16>,
) -> (biggest: u32)
    requires
        padding_fits(matches, enhancer@),
        forall|x: SimpleMatch| #[trigger]
            group@.contains(x) <==> matches.contains(x) && x.attribute == attribute && x.word_index
                == position,
        padding == shift(matches, enhancer@, attribute, position as int),
        forall|m: SimpleMatch| #[trigger]
            group@.contains(m) ==> nexts@.len() == later_positions(matches, m).len(),
        forall|m: SimpleMatch, x: int, n: SimpleMatch|
            #![trigger group@.contains(m), nexts@[x]@.contains(n)]
            group@.contains(m) && 0 <= x < nexts@.len() ==> (nexts@[x]@.contains(n)
                <==> matches.contains(n) && n.attribute == attribute && n.word_index
                == later_positions(matches, m)[x]),
    ensures
        biggest == width(matches, enhancer@, attribute, position as int),
        forall|x: SimpleMatch| #[trigger]
            final(padded_matches)@.contains(x) <==> old(padded_matches)@.contains(x) || exists|
                m: SimpleMatch,
            | #[trigger]
                group@.contains(m) && comes_from(matches, enhancer@, m, x),
{
    let ghost e = enhancer@;
    let mut biggest: u32 = 0;
    let mut j: usize = 0;
    while j < group.len()
        invariant
            j <= group@.len(),
            e == enhancer@,
            padding_fits(matches, enhancer@),
            forall|x: SimpleMatch| #[trigger]
                group@.contains(x) <==> matches.contains(x) && x.attribute == attribute
                    && x.word_index == position,
            padding == shift(matches, enhancer@, attribute, position as int),
            forall|m: SimpleMatch| #[trigger]
                group@.contains(m) ==> nexts@.len() == later_positions(matches, m).len(),
            forall|m: SimpleMatch, x: int, n: SimpleMatch|
                #![trigger group@.contains(m), nexts@[x]@.contains(n)]
                group@.contains(m) && 0 <= x < nexts@.len() ==> (nexts@[x]@.contains(n)
                    <==> matches.contains(n) && n.attribute == attribute && n.word_index
                    == later_positions(matches, m)[x]),
            forall|k: int|
                0 <= k < j ==> preceding(matches, e, #[trigger] group@[k]) <= biggest,
            biggest > 0 ==> exists|k: int|
                0 <= k < j && preceding(matches, e, #[trigger] group@[k]) == biggest,
            forall|x: SimpleMatch| #[trigger]
                padded_matches@.contains(x) <==> old(padded_matches)@.contains(x) || exists|k: int|
                    0 <= k < j && comes_from(matches, e, #[trigger] group@[k], x),
        decreases group@.len() - j,
    {
        let ghost before = padded_matches@;
        assert(group@.contains(group@[j as int]));
        let count: u32 = push_padded(
            &group[j],
            nexts,
            padding,
            enhancer,
            padded_matches,
            Ghost(matches),
        );
        if count > biggest {
            biggest = count;
        }
        assert forall|x: SimpleMatch| #[trigger]
            padded_matches@.contains(x) <==> old(padded_matches)@.contains(x) || exists|k: int|
                0 <= k < j + 1 && comes_from(matches, e, #[trigger] group@[k], x) by {
            assert(before.contains(x) <==> old(padded_matches)@.contains(x) || exists|k: int|
                0 <= k < j && comes_from(matches, e, #[trigger] group@[k], x));
        }
        j += 1;
    }
    proof {
        assert forall|m: SimpleMatch| #[trigger]
            matches.contains(m) && m.attribute == attribute && m.word_index
                == position implies preceding(matches, e, m) <= biggest by {
            assert(group@.contains(m));
            let k = choose|k: int| 0 <= k < group@.len() && group@[k] == m;
            assert(preceding(matches, e, group@[k]) <= biggest);
        }
        if biggest > 0 {
            let k = choose|k: int|
                0 <= k < j && preceding(matches, e, #[trigger] group@[k]) == biggest;
            assert(group@.contains(group@[k]));
        }
        lemma_width(matches, e, attribute, position as int, biggest as int);
        assert forall|x: SimpleMatch| #[trigger]
            padded_matches@.contains(x) <==> old(padded_matches)@.contains(x) || exists|
                m: SimpleMatch,
            | #[trigger]
                group@.contains(m) && comes_from(matches, e, m, x) by {
            if exists|k: int|
                0 <= k < j && comes_from(matches, e, #[trigger] group@[k], x) {
                let k = choose|k: int|
                    0 <= k < j && comes_from(matches, e, #[trigger] group@[k], x);
                assert(group@.contains(group@[k]));
            }
        }
    }
    biggest
}

/// Inserts the matches of one attribute with their padding.
fn push_attribute(
    same_attribute: &[SimpleMatch],
    enhancer: &QueryEnhancer,
    padded_matches: &mut Vec<SimpleMatch>,
    Ghost(matches): Ghost<Set<SimpleMatch>>,
    Ghost(attribute): Ghost<u16>,
)
    requires
        padding_fits(matches, enhancer@),
        forall|x: SimpleMatch| #[trigger]
            same_attribute@.contains(x) <==> matches.contains(x) && x.attribute == attribute,
        keys_ascend::<SimpleMatch, ByWordIndex>(same_attribute@),
    ensures
        forall|x: SimpleMatch| #[trigger]
            final(padded_matches)@.contains(x) <==> old(padded_matches)@.contains(x)
                || comes_from_before(matches, enhancer@, attribute, POSITIONS as int, x),
{
    let groups: Vec<&[SimpleMatch]> = linear_groups::<SimpleMatch, ByWordIndex>(same_attribute);
    let ghost e = enhancer@;
    let ghost r = runs::<SimpleMatch, ByWordIndex>(same_attribute@);
    proof {
        lemma_runs::<SimpleMatch, ByWordIndex>(same_attribute@);
        lemma_runs_of_ascending::<SimpleMatch, ByWordIndex>(same_attribute@);
        assert forall|g: int, x: SimpleMatch| 0 <= g < r.len() implies (
        #[trigger] r[g].contains(x) <==> matches.contains(x) && x.attribute == attribute
            && x.word_index == r[g][0].word_index) by {
            assert(same_attribute@.contains(x) <==> matches.contains(x) && x.attribute
                == attribute);
        }
        assert forall|x: SimpleMatch| #[trigger]
            matches.contains(x) && x.attribute == attribute implies exists|g: int|
            0 <= g < r.len() && (#[trigger] r[g]).contains(x) by {
            assert(same_attribute@.contains(x));
        }
        assert(grouped(matches, attribute, r));
        assert forall|g: int| 0 <= g < r.len() implies (#[trigger] groups@[g])@ == r[g] by {
            assert(contents(groups@)[g] == r[g]);
        }
        if r.len() > 0 {
            lemma_between_groups(matches, attribute, r, 0);
            lemma_shift(matches, e, attribute, 0, group_position(r, 0));
        }
        assert forall|x: SimpleMatch| !comes_from_before(
            matches,
            e,
            attribute,
            group_position(r, 0),
            x,
        ) by {
            if comes_from_before(matches, e, attribute, group_position(r, 0), x) {
                let m = choose|m: SimpleMatch| #[trigger]
                    matches.contains(m) && m.attribute == attribute && m.word_index
                        < group_position(r, 0) && comes_from(matches, e, m, x);
                let g = choose|g: int| 0 <= g < r.len() && (#[trigger] r[g]).contains(m);
                assert(matched_at(matches, attribute, m.word_index as int));
            }
        }
    }
    let mut padding: u64 = 0;
    let mut g: usize = 0;
    while g < groups.len()
        invariant
            g <= groups@.len(),
            groups@.len() == r.len(),
            e == enhancer@,
            padding_fits(matches, enhancer@),
            forall|g: int| 0 <= g < r.len() ==> (#[trigger] groups@[g])@ == r[g],
            grouped(matches, attribute, r),
            g < r.len() ==> padding == shift(matches, e, attribute, group_position(r, g as int)),
            padding <= group_position(r, g as int) * u32::MAX,
            forall|x: SimpleMatch| #[trigger]
                padded_matches@.contains(x) <==> old(padded_matches)@.contains(x)
                    || comes_from_before(matches, e, attribute, group_position(r, g as int), x),
        decreases groups@.len() - g,
    {
        let ghost before = padded_matches@;
        let ghost position = r[g as int][0].word_index;
        let nexts: &[&[SimpleMatch]] = vstd::slice::slice_subrange(
            groups.as_slice(),
            g + 1,
            groups.len(),
        );
        proof {
            assert forall|m: SimpleMatch| #[trigger] r[g as int].contains(m) implies nexts@.len()
                == later_positions(matches, m).len() by {
                lemma_later_positions(matches, attribute, r, g as int, m);
            }
            assert forall|m: SimpleMatch, x: int, n: SimpleMatch|
                #![trigger r[g as int].contains(m), nexts@[x]@.contains(n)]
                r[g as int].contains(m) && 0 <= x < nexts@.len() implies (nexts@[x]@.contains(n)
                <==> matches.contains(n) && n.attribute == attribute && n.word_index
                == later_positions(matches, m)[x]) by {
                lemma_later_positions(matches, attribute, r, g as int, m);
                assert(nexts@[x] == groups@[g + 1 + x]);
                assert(r[g + 1 + x].contains(n) <==> nexts@[x]@.contains(n));
            }
            lemma_between_groups(matches, attribute, r, g as int);
        }
        let biggest: u32 = push_group(
            groups[g],
            nexts,
            padding,
            enhancer,
            padded_matches,
            Ghost(matches),
            Ghost(attribute),
            Ghost(position),
        );
        proof {
            assert(shift(matches, e, attribute, position + 1) == padding + biggest);
            lemma_shift(matches, e, attribute, position + 1, group_position(r, g + 1));
            assert forall|x: SimpleMatch| #[trigger]
                padded_matches@.contains(x) <==> old(padded_matches)@.contains(x)
                    || comes_from_before(matches, e, attribute, group_position(r, g + 1), x) by {
                lemma_comes_from_group(matches, e, attribute, r, g as int, x);
                assert(before.contains(x) <==> old(padded_matches)@.contains(x)
                    || comes_from_before(matches, e, attribute, group_position(r, g as int), x));
            }
        }
        padding += biggest as u64;
        g += 1;
    }
}

/// What comes from a match before the next group comes from one before this
/// group or from one of this group.
proof fn lemma_comes_from_group(
    matches: Set<SimpleMatch>,
    enhancer: Seq<(u32, u32)>,
    attribute: u16,
    groups: Seq<Seq<SimpleMatch>>,
    g: int,
    x: SimpleMatch,
)
    requires
        grouped(matches, attribute, groups),
        0 <= g < groups.len(),
    ensures
        comes_from_before(matches, enhancer, attribute, group_position(groups, g + 1), x)
            <==> comes_from_before(matches, enhancer, attribute, group_position(groups, g), x)
            || exists|m: SimpleMatch| #[trigger]
            groups[g].contains(m) && comes_from(matches, enhancer, m, x),
{
    lemma_between_groups(matches, attribute, groups, g);
    if comes_from_before(matches, enhancer, attribute, group_position(groups, g + 1), x) {
        let m = choose|m: SimpleMatch| #[trigger]
            matches.contains(m) && m.attribute == attribute && m.word_index < group_position(
                groups,
                g + 1,
            ) && comes_from(matches, enhancer, m, x);
        assert(matched_at(matches, attribute, m.word_index as int));
        if m.word_index == group_position(groups, g) {
            assert(groups[g].contains(m));
        }
    }
    if exists|m: SimpleMatch| #[trigger]
        groups[g].contains(m) && comes_from(matches, enhancer, m, x) {
        let m = choose|m: SimpleMatch| #[trigger]
            groups[g].contains(m) && comes_from(matches, enhancer, m, x);
        assert(matches.contains(m));
    }
}

/// Moves matches to their positions and inserts their padding.
pub(crate) fn padded_matches(matches: &[SimpleMatch], enhancer: &QueryEnhancer) -> (all: Vec<
    SimpleMatch,
>)
    requires
        sorted_by::<SimpleMatch, ByPosition>(matches@),
        padding_fits(matches@.to_set(), enhancer@),
    ensures
        all@.to_set() == padded(matches@.to_set(), enhancer@),
{
    let mut all: Vec<SimpleMatch> = Vec::with_capacity(matches.len());
    let groups: Vec<&[SimpleMatch]> = linear_groups::<SimpleMatch, ByAttribute>(matches);
    let ghost k = matches@.to_set();
    let ghost e = enhancer@;
    let ghost r = runs::<SimpleMatch, ByAttribute>(matches@);
    proof {
        lemma_runs::<SimpleMatch, ByAttribute>(matches@);
        lemma_runs_of_ascending::<SimpleMatch, ByAttribute>(matches@);
        lemma_runs_keep_order::<SimpleMatch, ByAttribute>(
            matches@,
            |a: SimpleMatch, b: SimpleMatch| key_at_most(ByPosition::key(a), ByPosition::key(b)),
        );
        assert forall|g: int| 0 <= g < r.len() implies (#[trigger] groups@[g])@ == r[g] by {
            assert(contents(groups@)[g] == r[g]);
        }
        assert forall|g: int| 0 <= g < r.len() implies keys_ascend::<SimpleMatch, ByWordIndex>(
            #[trigger] r[g],
        ) by {
            assert forall|i: int, j: int| 0 <= i < j < r[g].len() implies (
            #[trigger] r[g][i]).word_index <= (#[trigger] r[g][j]).word_index by {
                assert(r[g][i].attribute == r[g][0].attribute);
                assert(r[g][j].attribute == r[g][0].attribute);
            }
        }
        assert forall|g: int, x: SimpleMatch| 0 <= g < r.len() implies (
        #[trigger] r[g].contains(x) <==> k.contains(x) && x.attribute == r[g][0].attribute) by {
            assert(matches@.contains(x) <==> k.contains(x));
        }
    }
    let mut g: usize = 0;
    while g < groups.len()
        invariant
            g <= groups@.len(),
            groups@.len() == r.len(),
            e == enhancer@,
            padding_fits(k, e),
            forall|g: int| 0 <= g < r.len() ==> (#[trigger] groups@[g])@ == r[g],
            forall|g: int|
                0 <= g < r.len() ==> keys_ascend::<SimpleMatch, ByWordIndex>(#[trigger] r[g]),
            forall|g: int, x: SimpleMatch|
                0 <= g < r.len() ==> (#[trigger] r[g].contains(x) <==> k.contains(x) && x.attribute
                    == r[g][0].attribute),
            forall|x: SimpleMatch| #[trigger]
                all@.contains(x) <==> exists|h: int|
                    0 <= h < g && comes_from_before(
                        k,
                        e,
                        (#[trigger] r[h])[0].attribute,
                        POSITIONS as int,
                        x,
                    ),
        decreases groups@.len() - g,
    {
        let ghost before = all@;
        push_attribute(groups[g], enhancer, &mut all, Ghost(k), Ghost(r[g as int][0].attribute));
        assert forall|x: SimpleMatch| #[trigger] all@.contains(x) <==> exists|h: int|
            0 <= h < g + 1 && comes_from_before(
                k,
                e,
                (#[trigger] r[h])[0].attribute,
                POSITIONS as int,
                x,
            ) by {
            assert(before.contains(x) <==> exists|h: int|
                0 <= h < g && comes_from_before(
                    k,
                    e,
                    (#[trigger] r[h])[0].attribute,
                    POSITIONS as int,
                    x,
                ));
            assert(r[g as int][0] == r[g as int][0]);
        }
        g += 1;
    }
    proof {
        assert forall|x: SimpleMatch| all@.contains(x) <==> padded(k, e).contains(x) by {
            if padded(k, e).contains(x) {
                let m = choose|m: SimpleMatch| #[trigger]
                    k.contains(m) && comes_from(k, e, m, x);
                assert(matches@.contains(m));
                let h = choose|h: int| 0 <= h < r.len() && (#[trigger] r[h]).contains(m);
                assert(r[h].contains(m));
                assert(comes_from_before(k, e, r[h][0].attribute, POSITIONS as int, x));
            }
        }
        assert(all@.to_set() =~= padded(k, e));
    }
    all
}

} // verus!
