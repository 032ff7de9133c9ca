//! Where padding puts matches.

use vstd::prelude::*;

use crate::padding::{
    answers, comes_from, first_answered, first_word, found_at, inserted, later_positions,
    lemma_first_answered, lemma_shift, lemma_width, looked_at, matched_at, moved, moved_position,
    padded, padding_len, padding_match, padding_position, padding_word, positions, preceding,
    shift, width, POSITIONS,
};
use crate::phrase::staying;
use crate::rewrite::rewritten;
use crate::rewrite_laws::{lemma_has_width, lemma_shift_grows};
use crate::types::{QueryWordAutomaton, SimpleMatch};

verus! {

/// Whether some match stands at a position of an attribute.
pub open spec fn stands_at(matches: Set<SimpleMatch>, attribute: u16, position: int) -> bool {
    exists|n: SimpleMatch| #[trigger]
        matches.contains(n) && n.attribute == attribute && n.word_index == position
}

/// Whether `later` are the positions behind `m` at which matches of its attribute
/// stand, in increasing order.
pub open spec fn are_later(matches: Set<SimpleMatch>, m: SimpleMatch, later: Seq<int>) -> bool {
    &&& forall|i: int, j: int| 0 <= i < j < later.len() ==> #[trigger] later[i] < #[trigger] later[j]
    &&& forall|p: int| #[trigger]
        later.contains(p) <==> m.word_index < p && stands_at(matches, m.attribute, p)
}

/// Whether a match at a position of an attribute stands first for `word`.
pub open spec fn stands_for(
    matches: Set<SimpleMatch>,
    enhancer: Seq<(u32, u32)>,
    attribute: u16,
    position: int,
    word: int,
) -> bool {
    exists|n: SimpleMatch| #[trigger]
        matches.contains(n) && n.attribute == attribute && n.word_index == position
            && enhancer[n.query_index as int].0 as u16 == word as u16
}

/// How many words `m` stands for besides the first.
pub open spec fn further_words(enhancer: Seq<(u32, u32)>, m: SimpleMatch) -> int {
    enhancer[m.query_index as int].1 - enhancer[m.query_index as int].0 - 1
}

/// Whether `found` is the first of the further words of `m`, from number `x` on,
/// for which a match at `position` stands first, or their number if there is none.
pub open spec fn is_found(
    matches: Set<SimpleMatch>,
    enhancer: Seq<(u32, u32)>,
    m: SimpleMatch,
    position: int,
    x: int,
    found: int,
) -> bool {
    let first = enhancer[m.query_index as int].0;
    if x >= further_words(enhancer, m) {
        found == further_words(enhancer, m)
    } else {
        &&& x <= found <= further_words(enhancer, m)
        &&& forall|i: int|
            x <= i < found ==> !#[trigger] stands_for(
                matches,
                enhancer,
                m.attribute,
                position,
                first + 1 + i,
            )
        &&& found < further_words(enhancer, m) ==> stands_for(
            matches,
            enhancer,
            m.attribute,
            position,
            first + 1 + found,
        )
    }
}

/// How many further words of `m` come before the first one found at the next
/// position: all of them if nothing stands behind `m`.
pub open spec fn words_before(
    enhancer: Seq<(u32, u32)>,
    m: SimpleMatch,
    later: Seq<int>,
    found: int,
) -> int {
    if later.len() == 0 {
        further_words(enhancer, m)
    } else {
        found
    }
}

/// Sequences of increasing numbers that hold the same are the same.
proof fn lemma_increasing(a: Seq<int>, b: Seq<int>)
    requires
        forall|i: int, j: int| 0 <= i < j < a.len() ==> #[trigger] a[i] < #[trigger] a[j],
        forall|i: int, j: int| 0 <= i < j < b.len() ==> #[trigger] b[i] < #[trigger] b[j],
        forall|p: int| #[trigger] a.contains(p) <==> b.contains(p),
    ensures
        a == b,
    decreases a.len(),
{
    if a.len() == 0 {
        if b.len() > 0 {
            assert(b.contains(b[0]));
            assert(a.contains(b[0]));
        }
        assert(a =~= b);
    } else {
        assert(a.contains(a.last()));
        assert(b.contains(a.last()));
        assert(b.contains(b.last()));
        assert(a.contains(b.last()));
        let i = choose|i: int| 0 <= i < b.len() && b[i] == a.last();
        let j = choose|j: int| 0 <= j < a.len() && a[j] == b.last();
        assert(b[i] <= b[b.len() - 1]);
        assert(a[j] <= a[a.len() - 1]);
        assert(a.last() == b.last());
        let (c, d) = (a.drop_last(), b.drop_last());
        assert forall|p: int| #[trigger] c.contains(p) <==> d.contains(p) by {
            lemma_without_last(a, p);
            lemma_without_last(b, p);
            assert(a.contains(p) <==> b.contains(p));
        }
        lemma_increasing(c, d);
        assert(a =~= c.push(a.last()));
        assert(b =~= d.push(b.last()));
    }
}

/// What increasing numbers hold besides the last.
proof fn lemma_without_last(a: Seq<int>, p: int)
    requires
        a.len() > 0,
        forall|i: int, j: int| 0 <= i < j < a.len() ==> #[trigger] a[i] < #[trigger] a[j],
    ensures
        a.drop_last().contains(p) <==> a.contains(p) && p != a.last(),
{
    let c = a.drop_last();
    if c.contains(p) {
        let i = choose|i: int| 0 <= i < c.len() && c[i] == p;
        assert(a[i] == p);
        assert(a[i] < a[a.len() - 1]);
    }
    if a.contains(p) && p != a.last() {
        let i = choose|i: int| 0 <= i < a.len() && a[i] == p;
        assert(c[i] == p);
    }
}

/// The positions at which something matches, in increasing order.
proof fn lemma_positions_between(
    matches: Set<SimpleMatch>,
    attribute: u16,
    from: int,
    to: int,
)
    ensures
        forall|i: int, j: int|
            0 <= i < j < positions(matches, attribute, from, to).len() ==> #[trigger] positions(
                matches,
                attribute,
                from,
                to,
            )[i] < #[trigger] positions(matches, attribute, from, to)[j],
        forall|p: int| #[trigger]
            positions(matches, attribute, from, to).contains(p) <==> from <= p < to && stands_at(
                matches,
                attribute,
                p,
            ),
    decreases to - from,
{
    let all = positions(matches, attribute, from, to);
    if from < to {
        lemma_positions_between(matches, attribute, from, to - 1);
        let rest = positions(matches, attribute, from, to - 1);
        assert(matched_at(matches, attribute, to - 1) == stands_at(matches, attribute, to - 1));
        assert forall|i: int, j: int| 0 <= i < j < all.len() implies #[trigger] all[i]
            < #[trigger] all[j] by {
            assert(all[i] == rest[i]);
            assert(rest.contains(rest[i]));
        }
        assert forall|p: int| #[trigger] all.contains(p) <==> from <= p < to && stands_at(
            matches,
            attribute,
            p,
        ) by {
            assert(rest.contains(p) <==> from <= p < to - 1 && stands_at(matches, attribute, p));
            if rest.contains(p) {
                let i = choose|i: int| 0 <= i < rest.len() && rest[i] == p;
                assert(all[i] == p);
            }
            if all.contains(p) {
                let i = choose|i: int| 0 <= i < all.len() && all[i] == p;
                if i < rest.len() {
                    assert(rest[i] == p);
                }
            }
            if p == to - 1 && matched_at(matches, attribute, p) {
                assert(all[rest.len() as int] == p);
            }
        }
    }
}

/// The later positions of a match are all positions behind it at which matches of
/// its attribute stand, in increasing order.
pub proof fn law_later_positions(matches: Set<SimpleMatch>, m: SimpleMatch)
    ensures
        are_later(matches, m, later_positions(matches, m)),
{
    lemma_positions_between(matches, m.attribute, m.word_index + 1, POSITIONS as int);
    let later = later_positions(matches, m);
    assert forall|p: int| #[trigger] later.contains(p) <==> m.word_index < p && stands_at(
        matches,
        m.attribute,
        p,
    ) by {
        assert(later.contains(p) <==> m.word_index + 1 <= p < POSITIONS && stands_at(
            matches,
            m.attribute,
            p,
        ));
    }
}

/// What is answered is stood for.
proof fn lemma_answers(
    matches: Set<SimpleMatch>,
    enhancer: Seq<(u32, u32)>,
    m: SimpleMatch,
    position: int,
    i: int,
)
    ensures
        answers(matches, enhancer, m.attribute, position, padding_word(enhancer, m, i))
            == stands_for(
            matches,
            enhancer,
            m.attribute,
            position,
            enhancer[m.query_index as int].0 + 1 + i,
        ),
{
    let word = padding_word(enhancer, m, i);
    if answers(matches, enhancer, m.attribute, position, word) {
        let n = choose|n: SimpleMatch| #[trigger]
            matches.contains(n) && n.attribute == m.attribute && n.word_index == position
                && first_word(enhancer, n) == word;
        assert(enhancer[n.query_index as int].0 as u16 == word);
    }
    if stands_for(
        matches,
        enhancer,
        m.attribute,
        position,
        enhancer[m.query_index as int].0 + 1 + i,
    ) {
        let n = choose|n: SimpleMatch| #[trigger]
            matches.contains(n) && n.attribute == m.attribute && n.word_index == position
                && enhancer[n.query_index as int].0 as u16 == (enhancer[m.query_index as int].0 + 1
                + i) as u16;
        assert(first_word(enhancer, n) == word);
    }
}

/// The first word that is answered is found.
proof fn lemma_first_answered_is_found(
    matches: Set<SimpleMatch>,
    enhancer: Seq<(u32, u32)>,
    m: SimpleMatch,
    x: int,
    i: int,
)
    ensures
        is_found(
            matches,
            enhancer,
            m,
            later_positions(matches, m)[x],
            i,
            first_answered(matches, enhancer, m, x, i),
        ),
    decreases further_words(enhancer, m) - i,
{
    let position = later_positions(matches, m)[x];
    let first = enhancer[m.query_index as int].0;
    if i < further_words(enhancer, m) {
        lemma_answers(matches, enhancer, m, position, i);
        lemma_first_answered(matches, enhancer, m, x, i);
        lemma_first_answered_is_found(matches, enhancer, m, x, i + 1);
        let f = first_answered(matches, enhancer, m, x, i);
        if f > i {
            assert(f == first_answered(matches, enhancer, m, x, i + 1));
            assert forall|j: int| i <= j < f implies !#[trigger] stands_for(
                matches,
                enhancer,
                m.attribute,
                position,
                first + 1 + j,
            ) by {
                if j > i {
                    assert(i + 1 < further_words(enhancer, m));
                }
            }
        }
    }
}

/// At each later position, the word of the padding that is found is the first one
/// for which a match there stands first, as many words left out as positions.
pub proof fn law_words_found(
    matches: Set<SimpleMatch>,
    enhancer: Seq<(u32, u32)>,
    m: SimpleMatch,
    x: int,
)
    ensures
        is_found(
            matches,
            enhancer,
            m,
            later_positions(matches, m)[x],
            x,
            found_at(matches, enhancer, m, x),
        ),
{
    lemma_first_answered_is_found(matches, enhancer, m, x, x);
}

/// Only one word is found at a position.
proof fn lemma_found_once(
    matches: Set<SimpleMatch>,
    enhancer: Seq<(u32, u32)>,
    m: SimpleMatch,
    position: int,
    x: int,
    a: int,
    b: int,
)
    requires
        is_found(matches, enhancer, m, position, x, a),
        is_found(matches, enhancer, m, position, x, b),
    ensures
        a == b,
{
    let first = enhancer[m.query_index as int].0;
    if a < b {
        assert(!stands_for(matches, enhancer, m.attribute, position, first + 1 + a));
    } else if b < a {
        assert(!stands_for(matches, enhancer, m.attribute, position, first + 1 + b));
    }
}

/// Nothing is moved on where nothing stands before it. Between two positions that
/// follow each other, what comes behind is moved on further by the largest number
/// of words that come before the first one found, among the matches at the first of
/// the two positions.
pub proof fn law_positions_are_moved_on(
    matches: Set<SimpleMatch>,
    enhancer: Seq<(u32, u32)>,
    attribute: u16,
    p: int,
    q: int,
)
    requires
        0 <= p < q,
        forall|position: int|
            p < position < q ==> !#[trigger] stands_at(matches, attribute, position),
    ensures
        (forall|position: int|
            0 <= position < q ==> !#[trigger] stands_at(matches, attribute, position)) ==> shift(
            matches,
            enhancer,
            attribute,
            q,
        ) == 0,
        shift(matches, enhancer, attribute, q) >= shift(matches, enhancer, attribute, p),
        forall|m: SimpleMatch| #[trigger]
            matches.contains(m) && m.attribute == attribute && m.word_index == p ==> words_before(
                enhancer,
                m,
                later_positions(matches, m),
                found_at(matches, enhancer, m, 0),
            ) <= shift(matches, enhancer, attribute, q) - shift(matches, enhancer, attribute, p),
        shift(matches, enhancer, attribute, q) > shift(matches, enhancer, attribute, p) ==> exists|
            m: SimpleMatch,
        | #[trigger]
            matches.contains(m) && m.attribute == attribute && m.word_index == p && words_before(
                enhancer,
                m,
                later_positions(matches, m),
                found_at(matches, enhancer, m, 0),
            ) == shift(matches, enhancer, attribute, q) - shift(matches, enhancer, attribute, p),
{
    assert forall|position: int| p < position < q implies !#[trigger] matched_at(
        matches,
        attribute,
        position,
    ) by {
        assert(!stands_at(matches, attribute, position));
    }
    lemma_shift(matches, enhancer, attribute, p + 1, q);
    lemma_has_width(matches, enhancer, attribute, p);
    assert(shift(matches, enhancer, attribute, p + 1) == shift(matches, enhancer, attribute, p)
        + width(matches, enhancer, attribute, p));
    if forall|position: int|
        0 <= position < q ==> !#[trigger] stands_at(matches, attribute, position) {
        assert forall|position: int| 0 <= position < q implies !#[trigger] matched_at(
            matches,
            attribute,
            position,
        ) by {
            assert(!stands_at(matches, attribute, position));
        }
        lemma_shift(matches, enhancer, attribute, 0, q);
    }
}

/// Of two matches of an attribute at positions that follow each other, the second is
/// moved further on than the first by the largest number of words that come before
/// the first one found, among the matches at the first position, as long as what
/// they are moved on by is a position itself.
pub proof fn law_neighbours_move_apart(
    matches: Set<SimpleMatch>,
    enhancer: Seq<(u32, u32)>,
    m: SimpleMatch,
    n: SimpleMatch,
)
    requires
        matches.contains(m),
        m.attribute == n.attribute,
        m.word_index < n.word_index,
        forall|position: int|
            m.word_index < position < n.word_index ==> !#[trigger] stands_at(
                matches,
                m.attribute,
                position,
            ),
        shift(matches, enhancer, n.attribute, n.word_index as int) <= u16::MAX,
    ensures
        forall|other: SimpleMatch| #[trigger]
            matches.contains(other) && other.attribute == m.attribute && other.word_index
                == m.word_index ==> (n.word_index - m.word_index) + words_before(
                enhancer,
                other,
                later_positions(matches, other),
                found_at(matches, enhancer, other, 0),
            ) <= moved_position(matches, enhancer, n) - moved_position(matches, enhancer, m),
        moved_position(matches, enhancer, n) - moved_position(matches, enhancer, m)
            == n.word_index - m.word_index || exists|other: SimpleMatch| #[trigger]
            matches.contains(other) && other.attribute == m.attribute && other.word_index
                == m.word_index && (n.word_index - m.word_index) + words_before(
                enhancer,
                other,
                later_positions(matches, other),
                found_at(matches, enhancer, other, 0),
            ) == moved_position(matches, enhancer, n) - moved_position(matches, enhancer, m),
        moved_position(matches, enhancer, n) - moved_position(matches, enhancer, m)
            >= n.word_index - m.word_index,
{
    let (p, q) = (m.word_index as int, n.word_index as int);
    lemma_shift_grows(matches, enhancer, m.attribute, p, q);
    lemma_shift_grows(matches, enhancer, m.attribute, 0, p);
    law_positions_are_moved_on(matches, enhancer, m.attribute, p, q);
}

/// A match never lands on, or before, a position given to a word of the padding of
/// an earlier match of its attribute that comes before the first one found, as long
/// as what it is moved on by is a position itself.
pub proof fn law_padding_is_not_landed_on(
    matches: Set<SimpleMatch>,
    enhancer: Seq<(u32, u32)>,
    m: SimpleMatch,
    n: SimpleMatch,
    i: int,
)
    requires
        matches.contains(m),
        m.attribute == n.attribute,
        m.word_index < n.word_index,
        0 <= i < words_before(
            enhancer,
            m,
            later_positions(matches, m),
            found_at(matches, enhancer, m, 0),
        ),
        shift(matches, enhancer, n.attribute, n.word_index as int) <= u16::MAX,
    ensures
        padding_match(matches, enhancer, m, i).word_index < moved(matches, enhancer, n).word_index
            || moved_position(matches, enhancer, n) >= POSITIONS,
{
    let (p, q) = (m.word_index as int, n.word_index as int);
    lemma_has_width(matches, enhancer, m.attribute, p);
    lemma_shift_grows(matches, enhancer, m.attribute, 0, p);
    lemma_shift_grows(matches, enhancer, m.attribute, p, p + 1);
    lemma_shift_grows(matches, enhancer, m.attribute, p + 1, q);
    assert(preceding(matches, enhancer, m) <= width(matches, enhancer, m.attribute, p));
    assert(padding_position(matches, enhancer, m, i) < moved_position(matches, enhancer, n));
}

/// A word of the padding is inserted exactly if it comes before the first one found
/// at the next position, or is found at a later position, all positions before which
/// had one found.
pub proof fn law_words_inserted(
    matches: Set<SimpleMatch>,
    enhancer: Seq<(u32, u32)>,
    m: SimpleMatch,
    i: int,
)
    ensures
        inserted(matches, enhancer, m, i) <==> 0 <= i < further_words(enhancer, m) && (i
            < words_before(
            enhancer,
            m,
            later_positions(matches, m),
            found_at(matches, enhancer, m, 0),
        ) || exists|x: int|
            0 <= x < later_positions(matches, m).len() && i == #[trigger] found_at(
                matches,
                enhancer,
                m,
                x,
            ) && forall|y: int|
                0 <= y < x ==> #[trigger] found_at(matches, enhancer, m, y) < further_words(
                    enhancer,
                    m,
                )),
{
    if exists|x: int|
        0 <= x < later_positions(matches, m).len() && i == #[trigger] found_at(
            matches,
            enhancer,
            m,
            x,
        ) && forall|y: int|
            0 <= y < x ==> #[trigger] found_at(matches, enhancer, m, y) < further_words(
                enhancer,
                m,
            ) {
        let x = choose|x: int|
            0 <= x < later_positions(matches, m).len() && i == #[trigger] found_at(
                matches,
                enhancer,
                m,
                x,
            ) && forall|y: int|
                0 <= y < x ==> #[trigger] found_at(matches, enhancer, m, y) < further_words(
                    enhancer,
                    m,
                );
        assert(looked_at(matches, enhancer, m, x));
    }
    if inserted(matches, enhancer, m, i) && i >= preceding(matches, enhancer, m) {
        let x = choose|x: int|
            looked_at(matches, enhancer, m, x) && i == #[trigger] found_at(
                matches,
                enhancer,
                m,
                x,
            );
        assert(forall|y: int|
            0 <= y < x ==> #[trigger] found_at(matches, enhancer, m, y) < further_words(
                enhancer,
                m,
            ));
    }
}

/// Whether `later` gives for each match the positions behind it, `found` the number
/// of the further word of it that is found at each of them, and `on` by how many
/// positions each position of an attribute is moved on: by nothing at its beginning,
/// and from one position to the next by as many more as the largest number of words
/// that come before the first one found, among the matches at the first of the two.
pub open spec fn describe(
    matches: Set<SimpleMatch>,
    enhancer: Seq<(u32, u32)>,
    later: spec_fn(SimpleMatch) -> Seq<int>,
    found: spec_fn(SimpleMatch, int) -> int,
    on: spec_fn(u16, int) -> int,
) -> bool {
    &&& forall|m: SimpleMatch| are_later(matches, m, #[trigger] later(m))
    &&& forall|m: SimpleMatch, x: int|
        0 <= x < later(m).len() ==> is_found(
            matches,
            enhancer,
            m,
            later(m)[x],
            x,
            #[trigger] found(m, x),
        )
    &&& forall|attribute: u16| #[trigger] on(attribute, 0) == 0
    &&& forall|attribute: u16, p: int, q: int|
        0 <= p && q == p + 1 ==> #[trigger] on(attribute, p) <= #[trigger] on(attribute, q)
    &&& forall|m: SimpleMatch, q: int|
        matches.contains(m) && q == m.word_index + 1 ==> words_before(
            enhancer,
            m,
            later(m),
            found(m, 0),
        ) <= #[trigger] on(m.attribute, q) - on(m.attribute, m.word_index as int)
    &&& forall|attribute: u16, p: int, q: int|
        0 <= p && q == p + 1 && #[trigger] on(attribute, p) < #[trigger] on(attribute, q)
            ==> exists|m: SimpleMatch| #[trigger]
            matches.contains(m) && m.attribute == attribute && m.word_index == p && words_before(
                enhancer,
                m,
                later(m),
                found(m, 0),
            ) == on(attribute, q) - on(attribute, p)
}

/// Whether `y` is what padding makes of `m`: `m` itself, moved on, for the first of
/// its words; or one of its further words at as many positions behind it as its
/// number, if it comes before the first one found, or is found where all positions
/// before had one found.
pub open spec fn is_made_of(
    enhancer: Seq<(u32, u32)>,
    later: spec_fn(SimpleMatch) -> Seq<int>,
    found: spec_fn(SimpleMatch, int) -> int,
    on: spec_fn(u16, int) -> int,
    m: SimpleMatch,
    y: SimpleMatch,
) -> bool {
    let first = enhancer[m.query_index as int].0;
    let position = m.word_index + on(m.attribute, m.word_index as int) as u16;
    &&& y.attribute == m.attribute
    &&& y.distance == m.distance
    &&& y.is_exact == m.is_exact
    &&& (y.query_index == first as u16 && y.word_index == position as u16) || exists|i: int|
        0 <= i < further_words(enhancer, m) && (i < words_before(
            enhancer,
            m,
            later(m),
            found(m, 0),
        ) || exists|x: int|
            0 <= x < later(m).len() && i == #[trigger] found(m, x) && forall|z: int|
                0 <= z < x ==> #[trigger] found(m, z) < further_words(enhancer, m))
            && y.query_index == #[trigger] ((first + 1 + i) as u16) && y.word_index == (position + (
        i + 1) as u16) as u16
}

/// There is a description of every padding.
pub proof fn law_padding_can_be_described(matches: Set<SimpleMatch>, enhancer: Seq<(u32, u32)>)
    ensures
        describe(
            matches,
            enhancer,
            |m: SimpleMatch| later_positions(matches, m),
            |m: SimpleMatch, x: int| found_at(matches, enhancer, m, x),
            |attribute: u16, position: int| shift(matches, enhancer, attribute, position),
        ),
{
    let later = |m: SimpleMatch| later_positions(matches, m);
    let found = |m: SimpleMatch, x: int| found_at(matches, enhancer, m, x);
    let on = |attribute: u16, position: int| shift(matches, enhancer, attribute, position);
    assert forall|m: SimpleMatch| are_later(matches, m, #[trigger] later(m)) by {
        law_later_positions(matches, m);
    }
    assert forall|m: SimpleMatch, x: int| 0 <= x < later(m).len() implies is_found(
        matches,
        enhancer,
        m,
        later(m)[x],
        x,
        #[trigger] found(m, x),
    ) by {
        law_words_found(matches, enhancer, m, x);
    }
    assert forall|attribute: u16, p: int, q: int| 0 <= p && q == p + 1 implies #[trigger] on(
        attribute,
        p,
    ) <= #[trigger] on(attribute, q) by {
        law_positions_are_moved_on(matches, enhancer, attribute, p, q);
    }
    assert forall|m: SimpleMatch, q: int|
        matches.contains(m) && q == m.word_index + 1 implies words_before(
        enhancer,
        m,
        later(m),
        found(m, 0),
    ) <= #[trigger] on(m.attribute, q) - on(m.attribute, m.word_index as int) by {
        law_positions_are_moved_on(matches, enhancer, m.attribute, m.word_index as int, q);
    }
    assert forall|attribute: u16, p: int, q: int|
        0 <= p && q == p + 1 && #[trigger] on(attribute, p) < #[trigger] on(
            attribute,
            q,
        ) implies exists|m: SimpleMatch| #[trigger]
        matches.contains(m) && m.attribute == attribute && m.word_index == p && words_before(
            enhancer,
            m,
            later(m),
            found(m, 0),
        ) == on(attribute, q) - on(attribute, p) by {
        law_positions_are_moved_on(matches, enhancer, attribute, p, q);
        let m = choose|m: SimpleMatch| #[trigger]
            matches.contains(m) && m.attribute == attribute && m.word_index == p && words_before(
                enhancer,
                m,
                later_positions(matches, m),
                found_at(matches, enhancer, m, 0),
            ) == shift(matches, enhancer, attribute, q) - shift(matches, enhancer, attribute, p);
        assert(words_before(enhancer, m, later(m), found(m, 0)) == on(attribute, q) - on(
            attribute,
            p,
        ));
    }
}

/// What describes the padding describes it by its own numbers.
proof fn lemma_described(
    matches: Set<SimpleMatch>,
    enhancer: Seq<(u32, u32)>,
    later: spec_fn(SimpleMatch) -> Seq<int>,
    found: spec_fn(SimpleMatch, int) -> int,
    on: spec_fn(u16, int) -> int,
    m: SimpleMatch,
)
    requires
        describe(matches, enhancer, later, found, on),
    ensures
        later(m) == later_positions(matches, m),
        forall|x: int|
            0 <= x < later(m).len() ==> #[trigger] found(m, x) == found_at(
                matches,
                enhancer,
                m,
                x,
            ),
        words_before(enhancer, m, later(m), found(m, 0)) == preceding(matches, enhancer, m),
{
    law_later_positions(matches, m);
    assert(are_later(matches, m, later(m)));
    let own = later_positions(matches, m);
    assert forall|p: int| #[trigger] later(m).contains(p) <==> own.contains(p) by {
        assert(later(m).contains(p) <==> m.word_index < p && stands_at(matches, m.attribute, p));
        assert(own.contains(p) <==> m.word_index < p && stands_at(matches, m.attribute, p));
    }
    lemma_increasing(later(m), own);
    assert forall|x: int| 0 <= x < later(m).len() implies #[trigger] found(m, x) == found_at(
        matches,
        enhancer,
        m,
        x,
    ) by {
        law_words_found(matches, enhancer, m, x);
        lemma_found_once(
            matches,
            enhancer,
            m,
            own[x],
            x,
            found(m, x),
            found_at(matches, enhancer, m, x),
        );
    }
    if later(m).len() > 0 {
        assert(found(m, 0) == found_at(matches, enhancer, m, 0));
    }
}

/// What describes the padding moves on by as much.
proof fn lemma_described_shift(
    matches: Set<SimpleMatch>,
    enhancer: Seq<(u32, u32)>,
    later: spec_fn(SimpleMatch) -> Seq<int>,
    found: spec_fn(SimpleMatch, int) -> int,
    on: spec_fn(u16, int) -> int,
    attribute: u16,
    position: int,
)
    requires
        describe(matches, enhancer, later, found, on),
        0 <= position,
    ensures
        on(attribute, position) == shift(matches, enhancer, attribute, position),
    decreases position,
{
    if position > 0 {
        let p = position - 1;
        lemma_described_shift(matches, enhancer, later, found, on, attribute, p);
        let w = on(attribute, position) - on(attribute, p);
        assert forall|m: SimpleMatch| #[trigger]
            matches.contains(m) && m.attribute == attribute && m.word_index == p implies preceding(
            matches,
            enhancer,
            m,
        ) <= w by {
            lemma_described(matches, enhancer, later, found, on, m);
            assert(on(m.attribute, position) - on(m.attribute, m.word_index as int) == w);
        }
        if w > 0 {
            let m = choose|m: SimpleMatch| #[trigger]
                matches.contains(m) && m.attribute == attribute && m.word_index == p
                    && words_before(enhancer, m, later(m), found(m, 0)) == on(attribute, position)
                    - on(attribute, p);
            lemma_described(matches, enhancer, later, found, on, m);
            assert(preceding(matches, enhancer, m) == w);
        }
        lemma_width(matches, enhancer, attribute, p, w);
    } else {
        assert(on(attribute, 0) == 0);
    }
}

/// Padding makes, of each match, itself moved on and those of its further words that
/// come before the first one found or are found, and nothing else.
pub proof fn law_padding(
    matches: Set<SimpleMatch>,
    enhancer: Seq<(u32, u32)>,
    later: spec_fn(SimpleMatch) -> Seq<int>,
    found: spec_fn(SimpleMatch, int) -> int,
    on: spec_fn(u16, int) -> int,
    y: SimpleMatch,
)
    requires
        describe(matches, enhancer, later, found, on),
    ensures
        padded(matches, enhancer).contains(y) <==> exists|m: SimpleMatch| #[trigger]
            matches.contains(m) && is_made_of(enhancer, later, found, on, m, y),
{
    assert forall|m: SimpleMatch| comes_from(matches, enhancer, m, y) <==> #[trigger] is_made_of(
        enhancer,
        later,
        found,
        on,
        m,
        y,
    ) by {
        lemma_described(matches, enhancer, later, found, on, m);
        lemma_described_shift(
            matches,
            enhancer,
            later,
            found,
            on,
            m.attribute,
            m.word_index as int,
        );
        lemma_made_of(matches, enhancer, later, found, on, m, y);
    }
}

/// What comes from a match is made of it.
proof fn lemma_made_of(
    matches: Set<SimpleMatch>,
    enhancer: Seq<(u32, u32)>,
    later: spec_fn(SimpleMatch) -> Seq<int>,
    found: spec_fn(SimpleMatch, int) -> int,
    on: spec_fn(u16, int) -> int,
    m: SimpleMatch,
    y: SimpleMatch,
)
    requires
        later(m) == later_positions(matches, m),
        forall|x: int|
            0 <= x < later(m).len() ==> #[trigger] found(m, x) == found_at(
                matches,
                enhancer,
                m,
                x,
            ),
        words_before(enhancer, m, later(m), found(m, 0)) == preceding(matches, enhancer, m),
        on(m.attribute, m.word_index as int) == shift(
            matches,
            enhancer,
            m.attribute,
            m.word_index as int,
        ),
    ensures
        comes_from(matches, enhancer, m, y) <==> is_made_of(enhancer, later, found, on, m, y),
{
    let first = enhancer[m.query_index as int].0;
    let len = further_words(enhancer, m);
    assert forall|i: int| #[trigger] inserted(matches, enhancer, m, i) implies 0 <= i < len && (i
        < words_before(enhancer, m, later(m), found(m, 0)) || exists|x: int|
        0 <= x < later(m).len() && i == #[trigger] found(m, x) && forall|z: int|
            0 <= z < x ==> #[trigger] found(m, z) < len) by {
        if i >= preceding(matches, enhancer, m) {
            let x = choose|x: int|
                looked_at(matches, enhancer, m, x) && i == #[trigger] found_at(
                    matches,
                    enhancer,
                    m,
                    x,
                );
            assert(i == found(m, x));
            assert forall|z: int| 0 <= z < x implies #[trigger] found(m, z) < len by {
                assert(found_at(matches, enhancer, m, z) < padding_len(enhancer, m));
            }
        }
    }
    if comes_from(matches, enhancer, m, y) && y != moved(matches, enhancer, m) {
        let i = choose|i: int| #[trigger]
            inserted(matches, enhancer, m, i) && y == padding_match(matches, enhancer, m, i);
        assert(y.query_index == (first + 1 + i) as u16);
    }
    if is_made_of(enhancer, later, found, on, m, y) && y != moved(matches, enhancer, m) {
        let position = m.word_index + on(m.attribute, m.word_index as int) as u16;
        let i = choose|i: int|
            0 <= i < len && (i < words_before(enhancer, m, later(m), found(m, 0)) || exists|x: int|
                0 <= x < later(m).len() && i == #[trigger] found(m, x) && forall|z: int|
                    0 <= z < x ==> #[trigger] found(m, z) < len) && y.query_index == #[trigger] ((
            first + 1 + i) as u16) && y.word_index == (position + (i + 1) as u16) as u16;
        if i >= preceding(matches, enhancer, m) {
            let x = choose|x: int|
                0 <= x < later(m).len() && i == #[trigger] found(m, x) && forall|z: int|
                    0 <= z < x ==> #[trigger] found(m, z) < len;
            assert forall|z: int| 0 <= z < x implies #[trigger] found_at(matches, enhancer, m, z)
                < padding_len(enhancer, m) by {
                assert(found(m, z) < len);
            }
            assert(looked_at(matches, enhancer, m, x));
            assert(i == found_at(matches, enhancer, m, x));
        }
        assert(inserted(matches, enhancer, m, i));
        assert(y == padding_match(matches, enhancer, m, i));
    }
}

/// Rewritten matches are the matches that stay, padded.
pub proof fn law_what_stays_is_padded(
    matches: Set<SimpleMatch>,
    enhancer: Seq<(u32, u32)>,
    automatons: Seq<QueryWordAutomaton>,
    y: SimpleMatch,
)
    ensures
        rewritten(matches, enhancer, automatons).contains(y) <==> padded(
            staying(matches, automatons),
            enhancer,
        ).contains(y),
{
}

} // verus!
