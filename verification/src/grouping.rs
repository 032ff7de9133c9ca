//! Runs of records that share a key.

use slice_group_by::GroupBy;
use vstd::prelude::*;

use crate::types::{BareMatch, Match, SimpleMatch};

verus! {

/// A key by which records of type `T` are grouped.
pub trait GroupKey<T> {
    /// The key of a record.
    spec fn key(item: T) -> u16;

    /// Computes the key of a record.
    fn of(item: &T) -> (key: u16)
        ensures
            key == Self::key(*item),
    ;
}

/// Groups matches by the attribute in which they stand.
pub struct ByAttribute;

/// Groups matches by the word of the query.
pub struct ByQueryIndex;

/// Groups matches by their position in the attribute.
pub struct ByWordIndex;

impl GroupKey<SimpleMatch> for ByAttribute {
    open spec fn key(item: SimpleMatch) -> u16 {
        item.attribute
    }

    fn of(item: &SimpleMatch) -> (key: u16) {
        item.attribute
    }
}

impl GroupKey<SimpleMatch> for ByQueryIndex {
    open spec fn key(item: SimpleMatch) -> u16 {
        item.query_index
    }

    fn of(item: &SimpleMatch) -> (key: u16) {
        item.query_index
    }
}

impl GroupKey<SimpleMatch> for ByWordIndex {
    open spec fn key(item: SimpleMatch) -> u16 {
        item.word_index
    }

    fn of(item: &SimpleMatch) -> (key: u16) {
        item.word_index
    }
}

impl<I> GroupKey<BareMatch<I>> for ByQueryIndex {
    open spec fn key(item: BareMatch<I>) -> u16 {
        item.query_index
    }

    fn of(item: &BareMatch<I>) -> (key: u16) {
        item.query_index
    }
}

/// The length of the first run of `s`: of the longest prefix in which all keys
/// are equal.
pub open spec fn first_run<T, K: GroupKey<T>>(s: Seq<T>) -> nat
    decreases s.len(),
{
    if s.len() == 0 {
        0
    } else if s.len() == 1 || K::key(s[0]) != K::key(s[1]) {
        1
    } else {
        1 + first_run::<T, K>(s.skip(1))
    }
}

/// `s` cut into runs: longest stretches of consecutive records with equal keys.
pub open spec fn runs<T, K: GroupKey<T>>(s: Seq<T>) -> Seq<Seq<T>>
    decreases s.len(),
{
    if s.len() == 0 {
        Seq::empty()
    } else {
        proof {
            lemma_first_run::<T, K>(s);
        }
        let n = first_run::<T, K>(s) as int;
        seq![s.take(n)] + runs::<T, K>(s.skip(n))
    }
}

/// What the slices of `groups` hold.
pub open spec fn contents<T>(groups: Seq<&[T]>) -> Seq<Seq<T>> {
    groups.map_values(|group: &[T]| group@)
}

/// Cuts a slice into its runs with `slice_group_by::GroupBy::linear_group_by_key`,
/// and collects them: the groups are the runs of the slice, in their order. The
/// records take up space: a slice of zero-sized ones would count as empty.
#[verifier::external_body]
pub(crate) fn linear_groups<'a, T: Match, K: GroupKey<T>>(items: &'a [T]) -> (groups: Vec<&'a [T]>)
    ensures
        contents(groups@) == (runs::<T, K>(items@)),
{
    items.linear_group_by_key(|item| K::of(item)).collect()
}

/// The first run is a longest prefix with equal keys.
pub proof fn lemma_first_run<T, K: GroupKey<T>>(s: Seq<T>)
    requires
        s.len() > 0,
    ensures
        1 <= first_run::<T, K>(s) <= s.len(),
        forall|i: int|
            0 <= i < first_run::<T, K>(s) ==> K::key(#[trigger] s[i]) == K::key(s[0]),
        first_run::<T, K>(s) < s.len() ==> K::key(s[first_run::<T, K>(s) as int]) != K::key(s[0]),
    decreases s.len(),
{
    if s.len() > 1 && K::key(s[0]) == K::key(s[1]) {
        let rest = s.skip(1);
        lemma_first_run::<T, K>(rest);
        let n = first_run::<T, K>(s) as int;
        assert forall|i: int| 0 <= i < n implies K::key(#[trigger] s[i]) == K::key(s[0]) by {
            if i > 0 {
                assert(rest[i - 1] == s[i]);
            }
        }
        if n < s.len() {
            assert(rest[n - 1] == s[n]);
        }
    }
}

/// No run is empty, and all records of a run have the same key. The runs
/// together hold what was cut.
pub proof fn lemma_runs<T, K: GroupKey<T>>(s: Seq<T>)
    ensures
        (runs::<T, K>(s).len() == 0) == (s.len() == 0),
        runs::<T, K>(s).len() <= s.len(),
        forall|g: int| 0 <= g < runs::<T, K>(s).len() ==> (#[trigger] runs::<T, K>(s)[g]).len() > 0,
        forall|g: int, i: int|
            0 <= g < runs::<T, K>(s).len() && 0 <= i < runs::<T, K>(s)[g].len() ==> K::key(
                #[trigger] runs::<T, K>(s)[g][i],
            ) == K::key(runs::<T, K>(s)[g][0]),
        forall|g: int, i: int|
            0 <= g < runs::<T, K>(s).len() && 0 <= i < runs::<T, K>(s)[g].len() ==> s.contains(
                #[trigger] runs::<T, K>(s)[g][i],
            ),
        forall|x: T| #[trigger]
            s.contains(x) ==> exists|g: int|
                0 <= g < runs::<T, K>(s).len() && (#[trigger] runs::<T, K>(s)[g]).contains(x),
        s.len() > 0 ==> runs::<T, K>(s)[0][0] == s[0],
    decreases s.len(),
{
    let r = runs::<T, K>(s);
    if s.len() > 0 {
        lemma_first_run::<T, K>(s);
        let n = first_run::<T, K>(s) as int;
        let rest = s.skip(n);
        let q = runs::<T, K>(rest);
        lemma_runs::<T, K>(rest);
        assert(r[0] == s.take(n));
        assert forall|g: int| 0 < g < r.len() implies #[trigger] r[g] == q[g - 1] by {}
        assert forall|g: int, i: int| 0 <= g < r.len() && 0 <= i < r[g].len() implies K::key(
            #[trigger] r[g][i],
        ) == K::key(r[g][0]) && s.contains(r[g][i]) by {
            if g == 0 {
                assert(r[g][i] == s[i]);
            } else {
                let x = q[g - 1][i];
                assert(rest.contains(x));
                let k = choose|k: int| 0 <= k < rest.len() && rest[k] == x;
                assert(s[k + n] == x);
            }
        }
        assert forall|x: T| #[trigger] s.contains(x) implies exists|g: int|
            0 <= g < r.len() && (#[trigger] r[g]).contains(x) by {
            let k = choose|k: int| 0 <= k < s.len() && s[k] == x;
            if k < n {
                assert(r[0][k] == x);
                assert(r[0].contains(x));
            } else {
                assert(rest[k - n] == x);
                assert(rest.contains(x));
                let g = choose|g: int| 0 <= g < q.len() && (#[trigger] q[g]).contains(x);
                assert(r[g + 1] == q[g]);
            }
        }
    }
}

/// What holds of every two records of a sequence, one before the other, holds
/// of every two records of a run.
pub proof fn lemma_runs_keep_order<T, K: GroupKey<T>>(s: Seq<T>, before: spec_fn(T, T) -> bool)
    requires
        forall|i: int, j: int| 0 <= i < j < s.len() ==> before(#[trigger] s[i], #[trigger] s[j]),
    ensures
        forall|g: int, i: int, j: int|
            0 <= g < runs::<T, K>(s).len() && 0 <= i < j < runs::<T, K>(s)[g].len() ==> before(
                #[trigger] runs::<T, K>(s)[g][i],
                #[trigger] runs::<T, K>(s)[g][j],
            ),
    decreases s.len(),
{
    if s.len() > 0 {
        lemma_first_run::<T, K>(s);
        let n = first_run::<T, K>(s) as int;
        let rest = s.skip(n);
        let r = runs::<T, K>(s);
        let q = runs::<T, K>(rest);
        lemma_runs_keep_order::<T, K>(rest, before);
        assert forall|g: int, i: int, j: int|
            0 <= g < r.len() && 0 <= i < j < r[g].len() implies before(
            #[trigger] r[g][i],
            #[trigger] r[g][j],
        ) by {
            if g == 0 {
                assert(r[g][i] == s[i] && r[g][j] == s[j]);
            } else {
                assert(r[g] == q[g - 1]);
                assert(before(q[g - 1][i], q[g - 1][j]));
            }
        }
    }
}

/// Whether the keys of a sequence never decrease.
pub open spec fn keys_ascend<T, K: GroupKey<T>>(s: Seq<T>) -> bool {
    forall|i: int, j: int|
        0 <= i < j < s.len() ==> K::key(#[trigger] s[i]) <= K::key(#[trigger] s[j])
}

/// Where keys never decrease, the keys of the runs increase.
pub proof fn lemma_run_keys_increase<T, K: GroupKey<T>>(s: Seq<T>)
    requires
        keys_ascend::<T, K>(s),
    ensures
        forall|g: int, h: int|
            0 <= g < h < runs::<T, K>(s).len() ==> K::key((#[trigger] runs::<T, K>(s)[g])[0])
                < K::key((#[trigger] runs::<T, K>(s)[h])[0]),
    decreases s.len(),
{
    if s.len() > 0 {
        let r = runs::<T, K>(s);
        lemma_first_run::<T, K>(s);
        let n = first_run::<T, K>(s) as int;
        let rest = s.skip(n);
        let q = runs::<T, K>(rest);
        lemma_runs::<T, K>(rest);
        lemma_run_keys_increase::<T, K>(rest);
        assert forall|g: int, h: int| 0 <= g < h < r.len() implies K::key((#[trigger] r[g])[0])
            < K::key((#[trigger] r[h])[0]) by {
            assert(r[h] == q[h - 1]);
            if g > 0 {
                assert(r[g] == q[g - 1]);
            } else {
                assert(r[0][0] == s[0]);
                assert(q[0][0] == rest[0]);
                assert(s[n] == rest[0]);
                assert(K::key(s[0]) < K::key(s[n]));
                if h > 1 {
                    assert(K::key(q[0][0]) < K::key(q[h - 1][0]));
                }
            }
        }
    }
}

/// Where keys never decrease, there is one run for each key, in the order of
/// the keys, and it holds all records with this key.
pub proof fn lemma_runs_of_ascending<T, K: GroupKey<T>>(s: Seq<T>)
    requires
        keys_ascend::<T, K>(s),
    ensures
        forall|g: int, h: int|
            0 <= g < h < runs::<T, K>(s).len() ==> K::key((#[trigger] runs::<T, K>(s)[g])[0])
                < K::key((#[trigger] runs::<T, K>(s)[h])[0]),
        forall|g: int, x: T|
            0 <= g < runs::<T, K>(s).len() ==> (#[trigger] runs::<T, K>(s)[g].contains(x) <==> (
            s.contains(x) && K::key(x) == K::key(runs::<T, K>(s)[g][0]))),
{
    let r = runs::<T, K>(s);
    lemma_runs::<T, K>(s);
    lemma_run_keys_increase::<T, K>(s);
    assert forall|g: int, x: T| 0 <= g < r.len() implies (#[trigger] r[g].contains(x) <==> (
    s.contains(x) && K::key(x) == K::key(r[g][0]))) by {
        if r[g].contains(x) {
            let i = choose|i: int| 0 <= i < r[g].len() && r[g][i] == x;
            assert(K::key(r[g][i]) == K::key(r[g][0]));
        }
        if s.contains(x) && K::key(x) == K::key(r[g][0]) {
            let h = choose|h: int| 0 <= h < r.len() && (#[trigger] r[h]).contains(x);
            let i = choose|i: int| 0 <= i < r[h].len() && r[h][i] == x;
            assert(K::key(r[h][i]) == K::key(r[h][0]));
            if h < g {
                assert(K::key(r[h][0]) < K::key(r[g][0]));
            } else if g < h {
                assert(K::key(r[g][0]) < K::key(r[h][0]));
            }
        }
    }
}

/// One more record at the end makes the first run longer only if there is no other run.
pub proof fn lemma_first_run_pushed<T, K: GroupKey<T>>(s: Seq<T>, x: T)
    requires
        s.len() > 0,
    ensures
        first_run::<T, K>(s.push(x)) == (if first_run::<T, K>(s) == s.len() && K::key(s.last())
            == K::key(x) {
            s.len() + 1
        } else {
            first_run::<T, K>(s)
        }),
    decreases s.len(),
{
    let t = s.push(x);
    lemma_first_run::<T, K>(s);
    assert(t[0] == s[0]);
    if s.len() == 1 {
        assert(t[1] == x);
        assert(t.skip(1) =~= seq![x]);
        assert(first_run::<T, K>(seq![x]) == 1);
    } else {
        assert(t[1] == s[1]);
        if K::key(s[0]) == K::key(s[1]) {
            assert(t.skip(1) =~= s.skip(1).push(x));
            lemma_first_run_pushed::<T, K>(s.skip(1), x);
        }
    }
}

/// One more record at the end joins the last run if it has its key, and makes up
/// a run of its own otherwise.
pub proof fn lemma_runs_pushed<T, K: GroupKey<T>>(s: Seq<T>, x: T)
    ensures
        runs::<T, K>(s.push(x)) == (if s.len() > 0 && K::key(s.last()) == K::key(x) {
            runs::<T, K>(s).drop_last().push(runs::<T, K>(s).last().push(x))
        } else {
            runs::<T, K>(s).push(seq![x])
        }),
        s.len() > 0 ==> runs::<T, K>(s).len() > 0,
    decreases s.len(),
{
    let t = s.push(x);
    let empty = Seq::<T>::empty();
    assert(runs::<T, K>(empty) == Seq::<Seq<T>>::empty());
    if s.len() == 0 {
        assert(t.take(1) =~= seq![x]);
        assert(t.skip(1) =~= empty);
        assert(first_run::<T, K>(t) == 1);
        assert(runs::<T, K>(t) =~= runs::<T, K>(s).push(seq![x]));
    } else {
        lemma_first_run::<T, K>(s);
        lemma_first_run_pushed::<T, K>(s, x);
        let n = first_run::<T, K>(s) as int;
        let rest = s.skip(n);
        let r = runs::<T, K>(s);
        let q = runs::<T, K>(rest);
        assert(r == seq![s.take(n)] + q);
        if n == s.len() {
            assert(rest =~= empty);
            assert(r =~= seq![s]) by {
                assert(s.take(n) =~= s);
            }
            if K::key(s.last()) == K::key(x) {
                assert(t.take(n + 1) =~= t);
                assert(t.skip(n + 1) =~= empty);
                assert(runs::<T, K>(t) =~= seq![t]);
                assert(r.drop_last().push(r.last().push(x)) =~= seq![t]);
            } else {
                assert(t.take(n) =~= s);
                assert(t.skip(n) =~= seq![x]);
                lemma_runs_pushed::<T, K>(rest, x);
                assert(rest.push(x) =~= seq![x]);
                assert(runs::<T, K>(t) =~= r.push(seq![x]));
            }
        } else {
            lemma_runs_pushed::<T, K>(rest, x);
            assert(t.take(n) =~= s.take(n));
            assert(t.skip(n) =~= rest.push(x));
            assert(rest.last() == s.last());
            assert(runs::<T, K>(t) == seq![s.take(n)] + runs::<T, K>(rest.push(x)));
            if K::key(s.last()) == K::key(x) {
                assert(seq![s.take(n)] + q.drop_last().push(q.last().push(x))
                    =~= r.drop_last().push(r.last().push(x)));
            } else {
                assert(seq![s.take(n)] + q.push(seq![x]) =~= r.push(seq![x]));
            }
        }
    }
}

} // verus!
