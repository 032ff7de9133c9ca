//! Which matches of a phrase query stay: those next to a match of the
//! neighbouring word of the phrase.

use vstd::prelude::*;

use crate::grouping::{
    contents, keys_ascend, lemma_runs, lemma_runs_keep_order, lemma_runs_of_ascending,
    linear_groups, runs, ByAttribute, ByQueryIndex,
};
use crate::sorting::{
    key_at_most, lemma_contains_added, lemma_contains_pushed, sorted_by, ByQueryWord, SortKey,
};
use crate::types::{QueryWordAutomaton, SimpleMatch};

verus! {

/// Whether a word of the query matches somewhere in an attribute.
pub open spec fn occurs(matches: Set<SimpleMatch>, attribute: u16, query_index: int) -> bool {
    exists|m: SimpleMatch| #[trigger]
        matches.contains(m) && m.attribute == attribute && m.query_index == query_index
}

/// Whether a word of the query is the first one of a phrase.
pub open spec fn starts_phrase(automatons: Seq<QueryWordAutomaton>, query_index: int) -> bool {
    &&& 0 <= query_index < automatons.len()
    &&& automatons[query_index].phrase_query matches Some((index, _))
    &&& index == 0
}

/// Whether the matches of a word are taken for the beginning of a phrase: the
/// word starts one, and is not itself taken for what follows such a beginning.
pub open spec fn leads(
    matches: Set<SimpleMatch>,
    automatons: Seq<QueryWordAutomaton>,
    attribute: u16,
    query_index: int,
) -> bool
    decreases query_index,
{
    &&& query_index >= 0
    &&& occurs(matches, attribute, query_index)
    &&& starts_phrase(automatons, query_index)
    &&& query_index > 0 ==> !leads(matches, automatons, attribute, query_index - 1)
}

/// Whether a match is taken for what follows the beginning of a phrase.
pub open spec fn follows(
    matches: Set<SimpleMatch>,
    automatons: Seq<QueryWordAutomaton>,
    m: SimpleMatch,
) -> bool {
    m.query_index > 0 && leads(matches, automatons, m.attribute, m.query_index - 1)
}

/// Whether two matches of neighbouring words of the query stand side by side
/// in an attribute, the second right before the first.
pub open spec fn side_by_side(first: SimpleMatch, second: SimpleMatch) -> bool {
    &&& first.attribute == second.attribute
    &&& second.query_index == first.query_index + 1
    &&& first.word_index == second.word_index + 1
}

/// Whether a match stays. One that begins a phrase, or follows such
/// a beginning, stays where a match of the other kind stands beside it. Other
/// matches stay unless their word belongs to a phrase.
pub open spec fn stays(
    matches: Set<SimpleMatch>,
    automatons: Seq<QueryWordAutomaton>,
    m: SimpleMatch,
) -> bool {
    &&& matches.contains(m)
    &&& if follows(matches, automatons, m) {
        exists|first: SimpleMatch| #[trigger] matches.contains(first) && side_by_side(first, m)
    } else {
        match automatons[m.query_index as int].phrase_query {
            None => true,
            Some((index, _)) => index == 0 && exists|second: SimpleMatch| #[trigger]
                matches.contains(second) && side_by_side(m, second),
        }
    }
}

/// The matches that stay.
pub open spec fn staying(
    matches: Set<SimpleMatch>,
    automatons: Seq<QueryWordAutomaton>,
) -> Set<SimpleMatch> {
    Set::new(|m: SimpleMatch| stays(matches, automatons, m))
}

/// What the search for phrases asks of the matches: an automaton for each word
/// whose matches do not just follow the beginning of a phrase, and
/// a position after each match that follows one.
pub open spec fn phrases_searchable(
    matches: Set<SimpleMatch>,
    automatons: Seq<QueryWordAutomaton>,
) -> bool {
    forall|m: SimpleMatch| #[trigger]
        matches.contains(m) ==> if follows(matches, automatons, m) {
            m.word_index < u16::MAX
        } else {
            m.query_index < automatons.len()
        }
}

/// Whether the second match stands right before the first.
spec fn touching(first: SimpleMatch, second: SimpleMatch) -> bool {
    first.word_index == second.word_index + 1
}

/// Whether `m` is one of two touching matches, one of `firsts` and one of
/// `seconds`, among the pairs before the `j`th one of the `i`th match of `firsts`.
spec fn paired(
    firsts: Seq<SimpleMatch>,
    seconds: Seq<SimpleMatch>,
    i: int,
    j: int,
    m: SimpleMatch,
) -> bool {
    exists|p: int, n: int|
        {
            &&& 0 <= p < firsts.len()
            &&& 0 <= n < seconds.len()
            &&& p < i || (p == i && n < j)
            &&& #[trigger] touching(firsts[p], seconds[n])
            &&& m == firsts[p] || m == seconds[n]
        }
}

/// Keeps the matches of two neighbouring words that stand side by side.
fn push_phrase(firsts: &[SimpleMatch], seconds: &[SimpleMatch], matches: &mut Vec<SimpleMatch>)
    requires
        forall|j: int| 0 <= j < seconds@.len() ==> (#[trigger] seconds@[j]).word_index < u16::MAX,
    ensures
        forall|x: SimpleMatch| #[trigger]
            final(matches)@.contains(x) <==> old(matches)@.contains(x) || paired(
                firsts@,
                seconds@,
                firsts@.len() as int,
                0,
                x,
            ),
{
    let mut i: usize = 0;
    while i < firsts.len()
        invariant
            i <= firsts@.len(),
            forall|j: int|
                0 <= j < seconds@.len() ==> (#[trigger] seconds@[j]).word_index < u16::MAX,
            forall|x: SimpleMatch| #[trigger]
                matches@.contains(x) <==> old(matches)@.contains(x) || paired(
                    firsts@,
                    seconds@,
                    i as int,
                    0,
                    x,
                ),
        decreases firsts@.len() - i,
    {
        let ma: SimpleMatch = firsts[i];
        let mut j: usize = 0;
        while j < seconds.len()
            invariant
                j <= seconds@.len(),
                i < firsts@.len(),
                ma == firsts@[i as int],
                forall|j: int|
                    0 <= j < seconds@.len() ==> (#[trigger] seconds@[j]).word_index < u16::MAX,
                forall|x: SimpleMatch| #[trigger]
                    matches@.contains(x) <==> old(matches)@.contains(x) || paired(
                        firsts@,
                        seconds@,
                        i as int,
                        j as int,
                        x,
                    ),
            decreases seconds@.len() - j,
        {
            let mb: SimpleMatch = seconds[j];
            let ghost before = matches@;
            if ma.word_index == mb.word_index + 1 {
                matches.push(ma);
                matches.push(mb);
            }
            proof {
                assert forall|x: SimpleMatch| #[trigger]
                    matches@.contains(x) <==> old(matches)@.contains(x) || paired(
                        firsts@,
                        seconds@,
                        i as int,
                        j + 1,
                        x,
                    ) by {
                    lemma_contains_pushed(before, ma, x);
                    lemma_contains_pushed(before.push(ma), mb, x);
                    assert(touching(firsts@[i as int], seconds@[j as int]) == (ma.word_index
                        == mb.word_index + 1));
                }
            }
            j += 1;
        }
        i += 1;
    }
}

/// Whether `groups` are the matches of one attribute, by word of the query: one
/// group for each word, in the order of the words.
spec fn grouped(
    matches: Set<SimpleMatch>,
    attribute: u16,
    groups: Seq<Seq<SimpleMatch>>,
) -> bool {
    &&& forall|g: int| 0 <= g < groups.len() ==> (#[trigger] groups[g]).len() > 0
    &&& forall|g: int, h: int|
        0 <= g < h < groups.len() ==> (#[trigger] groups[g])[0].query_index < (
        #[trigger] groups[h])[0].query_index
    &&& forall|g: int, x: SimpleMatch|
        0 <= g < groups.len() ==> (#[trigger] groups[g].contains(x) <==> matches.contains(x)
            && x.attribute == attribute && x.query_index == groups[g][0].query_index)
    &&& forall|x: SimpleMatch| #[trigger]
        matches.contains(x) && x.attribute == attribute ==> exists|g: int|
            0 <= g < groups.len() && (#[trigger] groups[g]).contains(x)
}

/// The word of the `g`th group; after the last group, more than any word.
spec fn group_word(groups: Seq<Seq<SimpleMatch>>, g: int) -> int {
    if g < groups.len() {
        groups[g][0].query_index as int
    } else {
        u16::MAX + 1
    }
}

/// The matches of the words from the `g`th group to the next make up this group.
proof fn lemma_group(
    matches: Set<SimpleMatch>,
    attribute: u16,
    groups: Seq<Seq<SimpleMatch>>,
    g: int,
)
    requires
        grouped(matches, attribute, groups),
        0 <= g < groups.len(),
    ensures
        group_word(groups, g) < group_word(groups, g + 1),
        forall|x: SimpleMatch| #[trigger]
            groups[g].contains(x) <==> matches.contains(x) && x.attribute == attribute
                && group_word(groups, g) <= x.query_index < group_word(groups, g + 1),
        forall|q: int|
            group_word(groups, g) < q < group_word(groups, g + 1) ==> !#[trigger] occurs(
                matches,
                attribute,
                q,
            ),
        occurs(matches, attribute, group_word(groups, g)),
        g == 0 ==> forall|q: int|
            q < group_word(groups, 0) ==> !#[trigger] occurs(matches, attribute, q),
{
    assert forall|x: SimpleMatch| #[trigger] matches.contains(x) && x.attribute == attribute
        implies exists|h: int|
        0 <= h < groups.len() && (#[trigger] groups[h]).contains(x) && x.query_index
            == groups[h][0].query_index by {
        let h = choose|h: int| 0 <= h < groups.len() && (#[trigger] groups[h]).contains(x);
        assert(groups[h].contains(x));
    }
    assert forall|x: SimpleMatch| #[trigger]
        groups[g].contains(x) <==> matches.contains(x) && x.attribute == attribute && group_word(
            groups,
            g,
        ) <= x.query_index < group_word(groups, g + 1) by {
        if matches.contains(x) && x.attribute == attribute && group_word(groups, g)
            <= x.query_index < group_word(groups, g + 1) {
            let h = choose|h: int|
                0 <= h < groups.len() && (#[trigger] groups[h]).contains(x) && x.query_index
                    == groups[h][0].query_index;
            if h > g + 1 {
                assert(groups[g + 1][0].query_index < groups[h][0].query_index);
            }
        }
    }
    assert(groups[g].contains(groups[g][0]));
    assert forall|q: int|
        group_word(groups, g) < q < group_word(groups, g + 1) implies !#[trigger] occurs(
        matches,
        attribute,
        q,
    ) by {
        if occurs(matches, attribute, q) {
            let x = choose|x: SimpleMatch| #[trigger]
                matches.contains(x) && x.attribute == attribute && x.query_index == q;
            assert(groups[g].contains(x));
        }
    }
    if g == 0 {
        assert forall|q: int| q < group_word(groups, 0) implies !#[trigger] occurs(
            matches,
            attribute,
            q,
        ) by {
            if occurs(matches, attribute, q) {
                let x = choose|x: SimpleMatch| #[trigger]
                    matches.contains(x) && x.attribute == attribute && x.query_index == q;
                let h = choose|h: int|
                    0 <= h < groups.len() && (#[trigger] groups[h]).contains(x) && x.query_index
                        == groups[h][0].query_index;
                assert(groups[0][0].query_index <= groups[h][0].query_index);
            }
        }
    }
}

/// The matches of a phrase's first two words that stay are those that touch.
proof fn lemma_phrase(
    matches: Set<SimpleMatch>,
    automatons: Seq<QueryWordAutomaton>,
    attribute: u16,
    firsts: Seq<SimpleMatch>,
    seconds: Seq<SimpleMatch>,
    query_index: int,
    x: SimpleMatch,
)
    requires
        leads(matches, automatons, attribute, query_index),
        forall|m: SimpleMatch| #[trigger]
            firsts.contains(m) <==> matches.contains(m) && m.attribute == attribute
                && m.query_index == query_index,
        forall|m: SimpleMatch| #[trigger]
            seconds.contains(m) <==> matches.contains(m) && m.attribute == attribute
                && m.query_index == query_index + 1,
        firsts.contains(x) || seconds.contains(x),
    ensures
        stays(matches, automatons, x) <==> paired(firsts, seconds, firsts.len() as int, 0, x),
{
    if firsts.contains(x) {
        assert(!follows(matches, automatons, x));
        if stays(matches, automatons, x) {
            let y = choose|y: SimpleMatch| #[trigger] matches.contains(y) && side_by_side(x, y);
            assert(seconds.contains(y));
            let p = choose|p: int| 0 <= p < firsts.len() && firsts[p] == x;
            let n = choose|n: int| 0 <= n < seconds.len() && seconds[n] == y;
            assert(touching(firsts[p], seconds[n]));
        }
    } else {
        assert(follows(matches, automatons, x));
        if stays(matches, automatons, x) {
            let y = choose|y: SimpleMatch| #[trigger] matches.contains(y) && side_by_side(y, x);
            assert(firsts.contains(y));
            let p = choose|p: int| 0 <= p < firsts.len() && firsts[p] == y;
            let n = choose|n: int| 0 <= n < seconds.len() && seconds[n] == x;
            assert(touching(firsts[p], seconds[n]));
        }
    }
    if paired(firsts, seconds, firsts.len() as int, 0, x) {
        let (p, n) = choose|p: int, n: int|
            {
                &&& 0 <= p < firsts.len()
                &&& 0 <= n < seconds.len()
                &&& #[trigger] touching(firsts[p], seconds[n])
                &&& x == firsts[p] || x == seconds[n]
            };
        assert(firsts.contains(firsts[p]));
        assert(seconds.contains(seconds[n]));
        assert(side_by_side(firsts[p], seconds[n]));
    }
}

/// Keeps the matches of one attribute that stay.
fn push_staying(
    same_attribute: &[SimpleMatch],
    automatons: &[QueryWordAutomaton],
    matches: &mut Vec<SimpleMatch>,
    Ghost(all): Ghost<Set<SimpleMatch>>,
    Ghost(attribute): Ghost<u16>,
)
    requires
        forall|x: SimpleMatch| #[trigger]
            same_attribute@.contains(x) <==> all.contains(x) && x.attribute == attribute,
        keys_ascend::<SimpleMatch, ByQueryIndex>(same_attribute@),
        phrases_searchable(all, automatons@),
    ensures
        forall|x: SimpleMatch| #[trigger]
            final(matches)@.contains(x) <==> old(matches)@.contains(x) || (x.attribute == attribute
                && stays(all, automatons@, x)),
{
    let groups: Vec<&[SimpleMatch]> = linear_groups::<SimpleMatch, ByQueryIndex>(same_attribute);
    let ghost r = runs::<SimpleMatch, ByQueryIndex>(same_attribute@);
    proof {
        lemma_runs::<SimpleMatch, ByQueryIndex>(same_attribute@);
        lemma_runs_of_ascending::<SimpleMatch, ByQueryIndex>(same_attribute@);
        assert forall|g: int, x: SimpleMatch| 0 <= g < r.len() implies (
        #[trigger] r[g].contains(x) <==> all.contains(x) && x.attribute == attribute
            && x.query_index == r[g][0].query_index) by {
            assert(same_attribute@.contains(x) <==> all.contains(x) && x.attribute == attribute);
        }
        assert forall|x: SimpleMatch| #[trigger]
            all.contains(x) && x.attribute == attribute implies exists|g: int|
            0 <= g < r.len() && (#[trigger] r[g]).contains(x) by {
            assert(same_attribute@.contains(x));
        }
        assert(grouped(all, attribute, r));
        assert forall|g: int| 0 <= g < r.len() implies (#[trigger] groups@[g])@ == r[g] by {
            assert(contents(groups@)[g] == r[g]);
        }
        if r.len() > 0 {
            lemma_group(all, attribute, r, 0);
        }
    }
    let mut g: usize = 0;
    while g < groups.len()
        invariant
            g <= groups@.len(),
            groups@.len() == r.len(),
            forall|g: int| 0 <= g < r.len() ==> (#[trigger] groups@[g])@ == r[g],
            grouped(all, attribute, r),
            phrases_searchable(all, automatons@),
            g < r.len() ==> !leads(all, automatons@, attribute, group_word(r, g as int) - 1),
            forall|x: SimpleMatch| #[trigger]
                matches@.contains(x) <==> old(matches)@.contains(x) || (x.attribute == attribute
                    && x.query_index < group_word(r, g as int) && stays(all, automatons@, x)),
        decreases groups@.len() - g,
    {
        let same_query_index: &[SimpleMatch] = groups[g];
        let query_index: u16 = same_query_index[0].query_index;
        let ghost before = matches@;
        proof {
            lemma_group(all, attribute, r, g as int);
            assert(r[g as int].contains(r[g as int][0]));
            assert(!follows(all, automatons@, r[g as int][0]));
            if g + 1 < r.len() {
                lemma_group(all, attribute, r, g + 1);
            }
        }
        match automatons[query_index as usize].phrase_query {
            Some((index, _)) => {
                // is the next group the one of the next word of the phrase
                if index == 0 && g + 1 < groups.len() && groups[g + 1][0].query_index
                    == query_index + 1 {
                    let next: &[SimpleMatch] = groups[g + 1];
                    assert(leads(all, automatons@, attribute, query_index as int));
                    assert forall|j: int| 0 <= j < next@.len() implies (
                    #[trigger] next@[j]).word_index < u16::MAX by {
                        assert(r[g + 1].contains(next@[j]));
                        assert(follows(all, automatons@, next@[j]));
                    }
                    push_phrase(same_query_index, next, matches);
                    proof {
                        assert forall|x: SimpleMatch| #[trigger]
                            matches@.contains(x) <==> old(matches)@.contains(x) || (x.attribute
                                == attribute && x.query_index < group_word(r, g + 2) && stays(
                                all,
                                automatons@,
                                x,
                            )) by {
                            if r[g as int].contains(x) || r[g + 1].contains(x) {
                                lemma_phrase(
                                    all,
                                    automatons@,
                                    attribute,
                                    r[g as int],
                                    r[g + 1],
                                    query_index as int,
                                    x,
                                );
                            }
                            lemma_paired_within(r[g as int], r[g + 1], x);
                        }
                        if g + 2 < r.len() {
                            assert(!leads(
                                all,
                                automatons@,
                                attribute,
                                group_word(r, g + 2) - 1,
                            ));
                        }
                    }
                    g += 1;
                } else {
                    proof {
                        assert forall|x: SimpleMatch| r[g as int].contains(x) implies !#[trigger] stays(
                            all,
                            automatons@,
                            x,
                        ) by {
                            assert(!follows(all, automatons@, x));
                            if index == 0 && stays(all, automatons@, x) {
                                let y = choose|y: SimpleMatch| #[trigger]
                                    all.contains(y) && side_by_side(x, y);
                                assert(occurs(all, attribute, y.query_index as int));
                                assert(r[g + 1].contains(y));
                            }
                        }
                    }
                }
            },
            None => {
                matches.extend_from_slice(same_query_index);
                proof {
                    assert(matches@ =~= before + same_query_index@);
                    assert forall|x: SimpleMatch| #[trigger]
                        matches@.contains(x) <==> old(matches)@.contains(x) || (x.attribute
                            == attribute && x.query_index < group_word(r, g + 1) && stays(
                            all,
                            automatons@,
                            x,
                        )) by {
                        lemma_contains_added(before, r[g as int], x);
                        if r[g as int].contains(x) {
                            assert(!follows(all, automatons@, x));
                        }
                    }
                }
            },
        }
        g += 1;
    }
}

/// Keeps the matches that stay.
pub(crate) fn staying_matches(
    simple_matches: &[SimpleMatch],
    automatons: &[QueryWordAutomaton],
) -> (matches: Vec<SimpleMatch>)
    requires
        sorted_by::<SimpleMatch, ByQueryWord>(simple_matches@),
        phrases_searchable(simple_matches@.to_set(), automatons@),
    ensures
        matches@.to_set() == staying(simple_matches@.to_set(), automatons@),
{
    let mut matches: Vec<SimpleMatch> = Vec::with_capacity(simple_matches.len());
    let groups: Vec<&[SimpleMatch]> = linear_groups::<SimpleMatch, ByAttribute>(simple_matches);
    let ghost all = simple_matches@.to_set();
    let ghost r = runs::<SimpleMatch, ByAttribute>(simple_matches@);
    proof {
        lemma_runs::<SimpleMatch, ByAttribute>(simple_matches@);
        lemma_runs_of_ascending::<SimpleMatch, ByAttribute>(simple_matches@);
        lemma_runs_keep_order::<SimpleMatch, ByAttribute>(
            simple_matches@,
            |a: SimpleMatch, b: SimpleMatch|
                key_at_most(ByQueryWord::key(a), ByQueryWord::key(b)),
        );
        assert forall|g: int| 0 <= g < r.len() implies (#[trigger] groups@[g])@ == r[g] by {
            assert(contents(groups@)[g] == r[g]);
        }
        assert forall|g: int| 0 <= g < r.len() implies keys_ascend::<SimpleMatch, ByQueryIndex>(
            #[trigger] r[g],
        ) by {
            assert forall|i: int, j: int| 0 <= i < j < r[g].len() implies (
            #[trigger] r[g][i]).query_index <= (#[trigger] r[g][j]).query_index by {
                assert(r[g][i].attribute == r[g][0].attribute);
                assert(r[g][j].attribute == r[g][0].attribute);
            }
        }
        assert forall|g: int, x: SimpleMatch| 0 <= g < r.len() implies (
        #[trigger] r[g].contains(x) <==> all.contains(x) && x.attribute == r[g][0].attribute) by {
            assert(simple_matches@.contains(x) <==> all.contains(x));
        }
    }
    let mut g: usize = 0;
    while g < groups.len()
        invariant
            g <= groups@.len(),
            groups@.len() == r.len(),
            forall|g: int| 0 <= g < r.len() ==> (#[trigger] groups@[g])@ == r[g],
            forall|g: int|
                0 <= g < r.len() ==> keys_ascend::<SimpleMatch, ByQueryIndex>(#[trigger] r[g]),
            forall|g: int, x: SimpleMatch|
                0 <= g < r.len() ==> (#[trigger] r[g].contains(x) <==> all.contains(x)
                    && x.attribute == r[g][0].attribute),
            phrases_searchable(all, automatons@),
            forall|x: SimpleMatch| #[trigger]
                matches@.contains(x) <==> stays(all, automatons@, x) && exists|h: int|
                    0 <= h < g && (#[trigger] r[h]).contains(x),
        decreases groups@.len() - g,
    {
        let ghost before = matches@;
        push_staying(
            groups[g],
            automatons,
            &mut matches,
            Ghost(all),
            Ghost(r[g as int][0].attribute),
        );
        assert forall|x: SimpleMatch| #[trigger]
            matches@.contains(x) <==> stays(all, automatons@, x) && exists|h: int|
                0 <= h < g + 1 && (#[trigger] r[h]).contains(x) by {
            assert(before.contains(x) <==> stays(all, automatons@, x) && exists|h: int|
                0 <= h < g && (#[trigger] r[h]).contains(x));
            assert(r[g as int].contains(x) <==> all.contains(x) && x.attribute
                == r[g as int][0].attribute);
        }
        g += 1;
    }
    proof {
        assert forall|x: SimpleMatch| matches@.contains(x) <==> stays(all, automatons@, x) by {
            if stays(all, automatons@, x) {
                assert(simple_matches@.contains(x));
                let h = choose|h: int| 0 <= h < r.len() && (#[trigger] r[h]).contains(x);
                assert(r[h].contains(x));
            }
        }
        assert(matches@.to_set() =~= staying(all, automatons@));
    }
    matches
}

/// Paired matches are among those that were paired.
proof fn lemma_paired_within(firsts: Seq<SimpleMatch>, seconds: Seq<SimpleMatch>, x: SimpleMatch)
    ensures
        paired(firsts, seconds, firsts.len() as int, 0, x) ==> firsts.contains(x)
            || seconds.contains(x),
{
}

} // verus!
