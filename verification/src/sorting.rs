//! Sorting of matches by keys, and their ascending sets.

use sdset::SetBuf;
use vstd::prelude::*;

use crate::types::{BareMatch, SimpleMatch};

verus! {

/// A key by which records of type `T` are sorted.
pub trait SortKey<T> {
    /// The key of a record.
    spec fn key(item: T) -> (u16, u16, u16);

    /// Computes the key of a record.
    fn of(item: &T) -> (key: (u16, u16, u16))
        ensures
            key == Self::key(*item),
    ;
}

/// Sorts matches by attribute, then by word of the query, then by position.
pub struct ByQueryWord;

/// Sorts matches by attribute, then by position.
pub struct ByPosition;

/// Sorts matches by word of the query, exact matches first.
pub struct ByExactness;

impl SortKey<SimpleMatch> for ByQueryWord {
    open spec fn key(item: SimpleMatch) -> (u16, u16, u16) {
        (item.attribute, item.query_index, item.word_index)
    }

    fn of(item: &SimpleMatch) -> (key: (u16, u16, u16)) {
        (item.attribute, item.query_index, item.word_index)
    }
}

impl SortKey<SimpleMatch> for ByPosition {
    open spec fn key(item: SimpleMatch) -> (u16, u16, u16) {
        (item.attribute, item.word_index, 0)
    }

    fn of(item: &SimpleMatch) -> (key: (u16, u16, u16)) {
        (item.attribute, item.word_index, 0)
    }
}

impl<I> SortKey<BareMatch<I>> for ByExactness {
    open spec fn key(item: BareMatch<I>) -> (u16, u16, u16) {
        (item.query_index, if item.is_exact { 0 } else { 1 }, 0)
    }

    fn of(item: &BareMatch<I>) -> (key: (u16, u16, u16)) {
        (item.query_index, if item.is_exact { 0 } else { 1 }, 0)
    }
}

/// The order of keys: by their parts, the first that differs decides.
pub open spec fn key_at_most(a: (u16, u16, u16), b: (u16, u16, u16)) -> bool {
    a.0 < b.0 || (a.0 == b.0 && (a.1 < b.1 || (a.1 == b.1 && a.2 <= b.2)))
}

/// Whether the keys of a sequence never decrease.
pub open spec fn sorted_by<T, K: SortKey<T>>(s: Seq<T>) -> bool {
    forall|i: int, j: int|
        0 <= i < j < s.len() ==> key_at_most(K::key(#[trigger] s[i]), K::key(#[trigger] s[j]))
}

/// Sorts a slice with `<[T]>::sort_unstable_by_key`: the slice holds the same
/// records, and their keys never decrease. Which of two records with equal keys
/// comes first is left open.
#[verifier::external_body]
pub(crate) fn sort_unstable_by_key<T, K: SortKey<T>>(items: &mut [T])
    ensures
        final(items)@.to_multiset() == old(items)@.to_multiset(),
        (sorted_by::<T, K>(final(items)@)),
{
    items.sort_unstable_by_key(|item| K::of(item))
}

/// Sequences that hold the same records the same number of times have the same
/// length and the same elements.
pub proof fn lemma_same_records<T>(a: Seq<T>, b: Seq<T>)
    requires
        a.to_multiset() == b.to_multiset(),
    ensures
        a.len() == b.len(),
        forall|x: T| #[trigger] a.contains(x) <==> b.contains(x),
        a.to_set() == b.to_set(),
{
    a.to_multiset_ensures();
    b.to_multiset_ensures();
    assert forall|x: T| #[trigger] a.contains(x) <==> b.contains(x) by {
        assert(a.contains(x) <==> a.to_multiset().count(x) > 0);
        assert(b.contains(x) <==> b.to_multiset().count(x) > 0);
    }
    assert(a.to_set() =~= b.to_set());
}

/// What a sequence contains after a push.
pub proof fn lemma_contains_pushed(s: Seq<SimpleMatch>, a: SimpleMatch, x: SimpleMatch)
    ensures
        s.push(a).contains(x) <==> s.contains(x) || x == a,
{
    let t = s.push(a);
    if s.contains(x) {
        let i = choose|i: int| 0 <= i < s.len() && s[i] == x;
        assert(t[i] == x);
    }
    assert(t[s.len() as int] == a);
    if t.contains(x) {
        let i = choose|i: int| 0 <= i < t.len() && t[i] == x;
        if i < s.len() {
            assert(s[i] == x);
        }
    }
}

/// What a sequence contains after another one was added.
pub proof fn lemma_contains_added(s: Seq<SimpleMatch>, t: Seq<SimpleMatch>, x: SimpleMatch)
    ensures
        (s + t).contains(x) <==> s.contains(x) || t.contains(x),
{
    if s.contains(x) {
        let i = choose|i: int| 0 <= i < s.len() && s[i] == x;
        assert((s + t)[i] == x);
    }
    if t.contains(x) {
        let i = choose|i: int| 0 <= i < t.len() && t[i] == x;
        assert((s + t)[i + s.len()] == x);
    }
    if (s + t).contains(x) {
        let i = choose|i: int| 0 <= i < (s + t).len() && (s + t)[i] == x;
        if i < s.len() {
            assert(s[i] == x);
        } else {
            assert(t[i - s.len()] == x);
        }
    }
}

/// The fields of a match in the order in which they are compared.
pub type Record = (u16, u8, u16, u16, u8);

/// The record of a match.
pub open spec fn record(m: SimpleMatch) -> Record {
    (m.query_index, m.distance, m.attribute, m.word_index, if m.is_exact { 1 } else { 0 })
}

/// The order of records: by their parts, the first that differs decides.
pub open spec fn record_precedes(a: Record, b: Record) -> bool {
    a.0 < b.0 || (a.0 == b.0 && (a.1 < b.1 || (a.1 == b.1 && (a.2 < b.2 || (a.2 == b.2 && (a.3
        < b.3 || (a.3 == b.3 && a.4 < b.4)))))))
}

/// Whether each record of a sequence precedes all later ones.
pub open spec fn records_increase(s: Seq<Record>) -> bool {
    forall|i: int, j: int|
        0 <= i < j < s.len() ==> record_precedes(#[trigger] s[i], #[trigger] s[j])
}

/// Makes a set of records with `sdset::SetBuf::from_dirty`, and takes its
/// elements out with `sdset::SetBuf::into_vec`: the result holds the same
/// records, in increasing order, so none of them twice.
#[verifier::external_body]
fn sorted_set(records: Vec<Record>) -> (set: Vec<Record>)
    ensures
        records_increase(set@),
        set@.to_set() == records@.to_set(),
{
    SetBuf::from_dirty(records).into_vec()
}

/// The order of matches: by query index, distance, attribute, word index and
/// exactness, the first that differs decides.
pub open spec fn precedes(a: SimpleMatch, b: SimpleMatch) -> bool {
    record_precedes(record(a), record(b))
}

/// Whether `s` lists the elements of `set` in increasing order, each of them once.
pub open spec fn lists(s: Seq<SimpleMatch>, set: Set<SimpleMatch>) -> bool {
    &&& forall|i: int, j: int| 0 <= i < j < s.len() ==> precedes(#[trigger] s[i], #[trigger] s[j])
    &&& s.to_set() == set
}

/// Whether a match of `s` has this record.
spec fn has_record(s: Seq<SimpleMatch>, r: Record) -> bool {
    exists|j: int| 0 <= j < s.len() && record(#[trigger] s[j]) == r
}

/// Lists the elements of a sequence of matches in increasing order.
pub(crate) fn sort_dedup(matches: &Vec<SimpleMatch>) -> (set: Vec<SimpleMatch>)
    ensures
        lists(set@, matches@.to_set()),
{
    let mut records: Vec<Record> = Vec::with_capacity(matches.len());
    for i in 0..matches.len()
        invariant
            records@ == matches@.take(i as int).map_values(|m: SimpleMatch| record(m)),
    {
        let m: SimpleMatch = matches[i];
        records.push(
            (m.query_index, m.distance, m.attribute, m.word_index, if m.is_exact { 1 } else { 0 }),
        );
        assert(matches@.take(i + 1) == matches@.take(i as int).push(m));
    }
    let ghost all = records@;
    assert(matches@.take(matches@.len() as int) == matches@);
    let sorted: Vec<Record> = sorted_set(records);
    let mut set: Vec<SimpleMatch> = Vec::with_capacity(sorted.len());
    assert forall|k: int| 0 <= k < sorted@.len() implies has_record(
        matches@,
        #[trigger] sorted@[k],
    ) by {
        assert(sorted@.to_set().contains(sorted@[k]));
        assert(all.contains(sorted@[k]));
        let j = choose|j: int| 0 <= j < all.len() && all[j] == sorted@[k];
        assert(record(matches@[j]) == sorted@[k]);
    }
    for i in 0..sorted.len()
        invariant
            set@.len() == i,
            forall|k: int| 0 <= k < i ==> record(#[trigger] set@[k]) == sorted@[k],
            forall|k: int| 0 <= k < sorted@.len() ==> has_record(matches@, #[trigger] sorted@[k]),
    {
        let r: Record = sorted[i];
        let m = SimpleMatch {
            query_index: r.0,
            distance: r.1,
            attribute: r.2,
            word_index: r.3,
            is_exact: r.4 == 1,
        };
        assert(record(m) == sorted@[i as int]);
        set.push(m);
    }
    proof {
        assert forall|x: SimpleMatch| set@.contains(x) <==> matches@.contains(x) by {
            if set@.contains(x) {
                let k = choose|k: int| 0 <= k < set@.len() && set@[k] == x;
                assert(has_record(matches@, sorted@[k]));
                let j = choose|j: int|
                    0 <= j < matches@.len() && record(#[trigger] matches@[j]) == sorted@[k];
                assert(matches@[j] == x);
            }
            if matches@.contains(x) {
                let j = choose|j: int| 0 <= j < matches@.len() && matches@[j] == x;
                assert(all[j] == record(x));
                assert(all.to_set().contains(record(x)));
                assert(sorted@.contains(record(x)));
                let k = choose|k: int| 0 <= k < sorted@.len() && sorted@[k] == record(x);
                assert(set@[k] == x);
            }
        }
        assert(set@.to_set() =~= matches@.to_set());
    }
    set
}

} // verus!
