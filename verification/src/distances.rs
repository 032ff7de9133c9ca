//! How far the words of the query are from the words that matched them.

use vstd::prelude::*;

use crate::query_enhancer::QueryEnhancer;
use crate::types::{BareMatch, RawDocument};

verus! {

/// The smaller of a distance already known, if any, and another one.
pub open spec fn closest(known: Option<u8>, distance: u8) -> Option<u8> {
    match known {
        Some(d) if d <= distance => Some(d),
        _ => Some(distance),
    }
}

/// The distances after one more match: as many as its words reach, the closest
/// one for each of its words, and no change for the words before them.
pub open spec fn with_match(
    distances: Seq<Option<u8>>,
    words: (u32, u32),
    distance: u8,
) -> Seq<Option<u8>> {
    Seq::new(
        words.1 as nat,
        |i: int|
            {
                let known = if i < distances.len() {
                    distances[i]
                } else {
                    None
                };
                if words.0 <= i {
                    closest(known, distance)
                } else {
                    known
                }
            },
    )
}

/// The distances of the words of the query, one match after another.
pub open spec fn distances_of<I>(
    raw_matches: Seq<BareMatch<I>>,
    enhancer: Seq<(u32, u32)>,
) -> Seq<Option<u8>>
    decreases raw_matches.len(),
{
    if raw_matches.len() == 0 {
        Seq::empty()
    } else {
        let m = raw_matches.last();
        with_match(
            distances_of(raw_matches.drop_last(), enhancer),
            enhancer[m.query_index as int],
            m.distance,
        )
    }
}

/// Whether the distances of a document can be prepared: they already are, or
/// the words of its matches are known.
pub open spec fn distances_preparable<I>(
    document: RawDocument<I>,
    enhancer: Seq<(u32, u32)>,
) -> bool {
    document.processed_distances@.len() == 0 ==> forall|i: int|
        0 <= i < document.raw_matches@.len() ==> (#[trigger] document.raw_matches@[i]).query_index
            < enhancer.len()
}

/// Whether `after` is `before` with its distances prepared, where there were
/// none. Nothing else differs.
pub open spec fn distances_prepared<I>(
    before: RawDocument<I>,
    after: RawDocument<I>,
    enhancer: Seq<(u32, u32)>,
) -> bool {
    if before.processed_distances@.len() > 0 {
        after == before
    } else {
        &&& after.raw_matches == before.raw_matches
        &&& after.processed_matches == before.processed_matches
        &&& after.processed_distances@ == distances_of(before.raw_matches@, enhancer)
    }
}

/// Whether the distances of all documents can be prepared.
pub open spec fn all_distances_preparable<I>(
    documents: Seq<RawDocument<I>>,
    enhancer: Seq<(u32, u32)>,
) -> bool {
    forall|d: int|
        0 <= d < documents.len() ==> distances_preparable(#[trigger] documents[d], enhancer)
}

/// Whether `after` are the documents of `before` with their distances prepared.
pub open spec fn all_distances_prepared<I>(
    before: Seq<RawDocument<I>>,
    after: Seq<RawDocument<I>>,
    enhancer: Seq<(u32, u32)>,
) -> bool {
    &&& after.len() == before.len()
    &&& forall|d: int|
        0 <= d < before.len() ==> distances_prepared(before[d], #[trigger] after[d], enhancer)
}

/// Adds one more match to the distances.
fn add_match(processed: &mut Vec<Option<u8>>, start: u32, end: u32, distance: u8)
    ensures
        final(processed)@ == with_match(old(processed)@, (start, end), distance),
{
    processed.resize(end as usize, None);
    let ghost resized = processed@;
    assert forall|i: int| 0 <= i < end implies #[trigger] resized[i] == (if i < old(
        processed,
    )@.len() {
        old(processed)@[i]
    } else {
        None
    }) by {
        if end > old(processed)@.len() {
            if i < old(processed)@.len() {
                assert(resized.subrange(0, old(processed)@.len() as int)[i] == resized[i]);
            }
        }
    }
    let mut index: u32 = start;
    while index < end
        invariant
            start <= index,
            index <= end || index == start,
            processed@.len() == end,
            resized.len() == end,
            forall|i: int|
                0 <= i < end ==> #[trigger] processed@[i] == (if start <= i < index {
                    closest(resized[i], distance)
                } else {
                    resized[i]
                }),
        decreases end - index,
    {
        let known: Option<u8> = processed[index as usize];
        processed[index as usize] = match known {
            Some(d) => if d > distance {
                Some(distance)
            } else {
                Some(d)
            },
            None => Some(distance),
        };
        index += 1;
    }
    assert(processed@ =~= with_match(old(processed)@, (start, end), distance));
}

/// Computes the distances of the words of the query.
fn collect_distances<I>(raw_matches: &Vec<BareMatch<I>>, query_enhancer: &QueryEnhancer) -> (processed:
    Vec<Option<u8>>)
    requires
        forall|i: int|
            0 <= i < raw_matches@.len() ==> (#[trigger] raw_matches@[i]).query_index
                < query_enhancer@.len(),
    ensures
        processed@ == distances_of(raw_matches@, query_enhancer@),
{
    let mut processed: Vec<Option<u8>> = Vec::new();
    let mut i: usize = 0;
    while i < raw_matches.len()
        invariant
            i <= raw_matches@.len(),
            forall|i: int|
                0 <= i < raw_matches@.len() ==> (#[trigger] raw_matches@[i]).query_index
                    < query_enhancer@.len(),
            processed@ == distances_of(raw_matches@.take(i as int), query_enhancer@),
        decreases raw_matches@.len() - i,
    {
        let m: &BareMatch<I> = &raw_matches[i];
        let range = query_enhancer.replacement(m.query_index as u32);
        add_match(&mut processed, range.start, range.end, m.distance);
        proof {
            let next = raw_matches@.take(i + 1);
            assert(next.drop_last() == raw_matches@.take(i as int));
            assert(next.last() == *m);
        }
        i += 1;
    }
    assert(raw_matches@.take(i as int) == raw_matches@);
    processed
}

/// Prepares the distances of documents, where it was not done before.
pub fn prepare_query_distances<I>(documents: &mut [RawDocument<I>], query_enhancer: &QueryEnhancer)
    requires
        all_distances_preparable(old(documents)@, query_enhancer@),
    ensures
        all_distances_prepared(old(documents)@, final(documents)@, query_enhancer@),
        final(documents)@.len() == old(documents)@.len(),
        forall|d: int|
            0 <= d < old(documents)@.len() ==> {
                &&& (#[trigger] final(documents)@[d]).raw_matches == old(documents)@[d].raw_matches
                &&& final(documents)@[d].processed_matches == old(documents)@[d].processed_matches
                &&& old(documents)@[d].processed_distances@.len() > 0 ==> final(documents)@[d].processed_distances == old(documents)@[d].processed_distances
                &&& old(documents)@[d].processed_distances@.len() == 0 ==> final(documents)@[d].processed_distances@ == distances_of(
                    old(documents)@[d].raw_matches@,
                    query_enhancer.replacements@,
                )
            },
{
    let mut d: usize = 0;
    while d < documents.len()
        invariant
            d <= documents@.len(),
            documents@.len() == old(documents)@.len(),
            all_distances_preparable(old(documents)@, query_enhancer@),
            forall|c: int|
                0 <= c < d ==> distances_prepared(
                    old(documents)@[c],
                    #[trigger] documents@[c],
                    query_enhancer@,
                ),
            forall|c: int|
                d <= c < documents@.len() ==> #[trigger] documents@[c] == old(documents)@[c],
        decreases documents@.len() - d,
    {
        assert(documents@[d as int] == old(documents)@[d as int]);
        if documents[d].processed_distances.is_empty() {
            documents[d].processed_distances =
            collect_distances(&documents[d].raw_matches, query_enhancer);
        }
        d += 1;
    }
}

/// Whether a match stands for the `i`th word of the query.
pub open spec fn covers<I>(m: BareMatch<I>, enhancer: Seq<(u32, u32)>, i: int) -> bool {
    enhancer[m.query_index as int].0 <= i < enhancer[m.query_index as int].1
}

/// Where no match reaches less far than the one before it, there is a distance
/// for exactly the words that some match stands for, and it is the smallest
/// distance of these matches. The last match tells how many words there are.
pub proof fn law_closest_distances<I>(
    raw_matches: Seq<BareMatch<I>>,
    enhancer: Seq<(u32, u32)>,
    i: int,
)
    requires
        forall|a: int, b: int|
            0 <= a < b < raw_matches.len()
                ==> enhancer[(#[trigger] raw_matches[a]).query_index as int].1
                <= enhancer[(#[trigger] raw_matches[b]).query_index as int].1,
    ensures
        distances_of(raw_matches, enhancer).len() == (if raw_matches.len() == 0 {
            0
        } else {
            enhancer[raw_matches.last().query_index as int].1 as nat
        }),
        0 <= i < distances_of(raw_matches, enhancer).len() ==> match distances_of(
            raw_matches,
            enhancer,
        )[i] {
            Some(distance) => {
                &&& exists|k: int|
                    0 <= k < raw_matches.len() && covers(#[trigger] raw_matches[k], enhancer, i)
                        && raw_matches[k].distance == distance
                &&& forall|k: int|
                    0 <= k < raw_matches.len() && covers(#[trigger] raw_matches[k], enhancer, i)
                        ==> distance <= raw_matches[k].distance
            },
            None => forall|k: int|
                0 <= k < raw_matches.len() ==> !covers(#[trigger] raw_matches[k], enhancer, i),
        },
    decreases raw_matches.len(),
{
    if raw_matches.len() > 0 {
        let rest = raw_matches.drop_last();
        let last = raw_matches.last();
        let n = raw_matches.len() - 1;
        assert(raw_matches[n] == last);
        assert forall|a: int, b: int| 0 <= a < b < rest.len() implies enhancer[(
        #[trigger] rest[a]).query_index as int].1 <= enhancer[(
        #[trigger] rest[b]).query_index as int].1 by {
            assert(rest[a] == raw_matches[a] && rest[b] == raw_matches[b]);
        }
        law_closest_distances(rest, enhancer, i);
        let before = distances_of(rest, enhancer);
        let after = distances_of(raw_matches, enhancer);
        assert(forall|k: int| 0 <= k < n ==> #[trigger] raw_matches[k] == rest[k]);
        if rest.len() > 0 {
            assert(raw_matches[n - 1] == rest.last());
        }
        if 0 <= i < after.len() {
            if i >= before.len() {
                assert forall|k: int| 0 <= k < rest.len() implies !covers(
                    #[trigger] rest[k],
                    enhancer,
                    i,
                ) by {
                    assert(rest[k] == raw_matches[k]);
                    if k < rest.len() - 1 {
                        assert(raw_matches[n - 1] == rest.last());
                    }
                }
            }
            match after[i] {
                Some(distance) => {
                    if covers(last, enhancer, i) && distance == last.distance {
                        assert(covers(raw_matches[n], enhancer, i));
                    } else {
                        let k = choose|k: int|
                            0 <= k < rest.len() && covers(#[trigger] rest[k], enhancer, i)
                                && rest[k].distance == distance;
                        assert(raw_matches[k] == rest[k]);
                    }
                },
                None => {},
            }
        }
    }
}

/// Preparing the distances of a document twice is preparing them once.
pub proof fn law_prepare_distances_twice<I>(
    before: RawDocument<I>,
    once: RawDocument<I>,
    twice: RawDocument<I>,
    enhancer: Seq<(u32, u32)>,
)
    requires
        distances_preparable(before, enhancer),
        distances_prepared(before, once, enhancer),
        distances_prepared(once, twice, enhancer),
    ensures
        distances_preparable(once, enhancer),
        twice.raw_matches == once.raw_matches,
        twice.processed_matches == once.processed_matches,
        twice.processed_distances@ == once.processed_distances@,
{
}

/// No match gives no distance. One more match cuts or extends the distances to the
/// end of its words. Words before its own keep their distance. Each of its own
/// words has its distance, or the one that was known if that is not larger.
pub proof fn law_distances_of_one_more_match<I>(
    raw_matches: Seq<BareMatch<I>>,
    m: BareMatch<I>,
    enhancer: Seq<(u32, u32)>,
    i: int,
)
    ensures
        distances_of(Seq::<BareMatch<I>>::empty(), enhancer).len() == 0,
        distances_of(raw_matches.push(m), enhancer).len() == enhancer[m.query_index as int].1,
        0 <= i < enhancer[m.query_index as int].1 ==> {
            let before = distances_of(raw_matches, enhancer);
            let after = distances_of(raw_matches.push(m), enhancer);
            let known = i < before.len() && before[i] is Some;
            if i < enhancer[m.query_index as int].0 {
                &&& known ==> after[i] == before[i]
                &&& !known ==> after[i] is None
            } else {
                &&& after[i] is Some
                &&& after[i]->0 <= m.distance
                &&& known ==> after[i]->0 <= before[i]->0
                &&& after[i]->0 == m.distance || (known && after[i] == before[i])
            }
        },
{
    assert(raw_matches.push(m).drop_last() =~= raw_matches);
}

/// Documents can be prepared exactly if all words of those without distances are
/// known. Preparing changes nothing but missing distances.
pub proof fn law_preparing_distances<I>(
    before: Seq<RawDocument<I>>,
    after: Seq<RawDocument<I>>,
    enhancer: Seq<(u32, u32)>,
)
    ensures
        all_distances_preparable(before, enhancer) <==> forall|d: int, i: int|
            #![trigger before[d].raw_matches@[i]]
            0 <= d < before.len() && before[d].processed_distances@.len() == 0 && 0 <= i
                < before[d].raw_matches@.len() ==> before[d].raw_matches@[i].query_index
                < enhancer.len(),
        all_distances_prepared(before, after, enhancer) ==> {
            &&& after.len() == before.len()
            &&& forall|d: int|
                0 <= d < before.len() ==> {
                    &&& (#[trigger] after[d]).raw_matches == before[d].raw_matches
                    &&& after[d].processed_matches == before[d].processed_matches
                    &&& before[d].processed_distances@.len() > 0 ==> after[d].processed_distances
                        == before[d].processed_distances
                    &&& before[d].processed_distances@.len() == 0
                        ==> after[d].processed_distances@ == distances_of(
                        before[d].raw_matches@,
                        enhancer,
                    )
                }
        },
{
    if forall|d: int, i: int|
        #![trigger before[d].raw_matches@[i]]
        0 <= d < before.len() && before[d].processed_distances@.len() == 0 && 0 <= i
            < before[d].raw_matches@.len() ==> before[d].raw_matches@[i].query_index
            < enhancer.len() {
        assert(all_distances_preparable(before, enhancer));
    }
    if all_distances_preparable(before, enhancer) {
        assert forall|d: int, i: int|
            #![trigger before[d].raw_matches@[i]]
            0 <= d < before.len() && before[d].processed_distances@.len() == 0 && 0 <= i
                < before[d].raw_matches@.len() implies before[d].raw_matches@[i].query_index
            < enhancer.len() by {
            assert(distances_preparable(before[d], enhancer));
        }
    }
    if all_distances_prepared(before, after, enhancer) {
        assert forall|d: int| 0 <= d < before.len() implies distances_prepared(
            before[d],
            #[trigger] after[d],
            enhancer,
        ) by {}
    }
}

} // verus!
