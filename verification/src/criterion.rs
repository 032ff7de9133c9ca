//! What a ranking criterion is.

use std::cmp::Ordering;

use vstd::prelude::*;

use crate::postings::PostingsLists;
use crate::query_enhancer::QueryEnhancer;
use crate::types::{QueryWordAutomaton, RawDocument};

verus! {

/// A rule by which documents are ordered, whose postings lists are kept in a `P`.
pub trait Criterion<P: PostingsLists> {
    /// The name of the criterion.
    spec fn label(&self) -> Seq<char>;

    /// Whether documents can be prepared.
    spec fn can_prepare(
        &self,
        documents: Seq<RawDocument<P::Index>>,
        postings_lists: P,
        query_enhancer: QueryEnhancer,
        automatons: Seq<QueryWordAutomaton>,
    ) -> bool;

    /// What preparing makes of the documents and of the postings lists.
    spec fn prepares(
        &self,
        before: (Seq<RawDocument<P::Index>>, P),
        after: (Seq<RawDocument<P::Index>>, P),
        query_enhancer: QueryEnhancer,
        automatons: Seq<QueryWordAutomaton>,
    ) -> bool;

    /// Whether two documents can be ordered.
    spec fn can_evaluate(
        &self,
        lhs: RawDocument<P::Index>,
        rhs: RawDocument<P::Index>,
        postings_lists: P,
    ) -> bool;

    /// How two documents are ordered.
    spec fn order(
        &self,
        lhs: RawDocument<P::Index>,
        rhs: RawDocument<P::Index>,
        postings_lists: P,
    ) -> Ordering;

    /// Returns the name of the criterion.
    fn name(&self) -> (name: &str)
        ensures
            name@ == self.label(),
    ;

    /// Prepares what the criterion reads of the documents.
    fn prepare(
        &self,
        documents: &mut [RawDocument<P::Index>],
        postings_lists: &mut P,
        query_enhancer: &QueryEnhancer,
        automatons: &[QueryWordAutomaton],
    )
        requires
            self.can_prepare(
                old(documents)@,
                *old(postings_lists),
                *query_enhancer,
                automatons@,
            ),
        ensures
            self.prepares(
                (old(documents)@, *old(postings_lists)),
                (final(documents)@, *final(postings_lists)),
                *query_enhancer,
                automatons@,
            ),
    ;

    /// Orders two documents.
    fn evaluate(
        &self,
        lhs: &RawDocument<P::Index>,
        rhs: &RawDocument<P::Index>,
        postings_lists: &P,
    ) -> (ordering: Ordering)
        requires
            self.can_evaluate(*lhs, *rhs, *postings_lists),
        ensures
            ordering == self.order(*lhs, *rhs, *postings_lists),
    ;

    /// Tells whether neither of two documents comes before the other.
    fn eq(
        &self,
        lhs: &RawDocument<P::Index>,
        rhs: &RawDocument<P::Index>,
        postings_lists: &P,
    ) -> (equal: bool)
        requires
            self.can_evaluate(*lhs, *rhs, *postings_lists),
        ensures
            equal == (self.order(*lhs, *rhs, *postings_lists) == Ordering::Equal),
    {
        match self.evaluate(lhs, rhs, postings_lists) {
            Ordering::Equal => true,
            _ => false,
        }
    }
}

/// The order of two ranks, the smaller one first.
pub open spec fn by_rank(lhs: int, rhs: int) -> Ordering {
    if lhs < rhs {
        Ordering::Less
    } else if lhs == rhs {
        Ordering::Equal
    } else {
        Ordering::Greater
    }
}

/// A criterion that gives each document a rank, and orders documents by it.
pub trait Ranked<P: PostingsLists>: Criterion<P> {
    /// The rank of a document.
    spec fn rank(&self, document: RawDocument<P::Index>) -> int;

    /// Documents are ordered by their ranks.
    proof fn ordered_by_rank(
        &self,
        lhs: RawDocument<P::Index>,
        rhs: RawDocument<P::Index>,
        postings_lists: P,
    )
        ensures
            self.order(lhs, rhs, postings_lists) == by_rank(self.rank(lhs), self.rank(rhs)),
    ;
}

/// The opposite of an order.
pub open spec fn opposite(ordering: Ordering) -> Ordering {
    match ordering {
        Ordering::Less => Ordering::Greater,
        Ordering::Equal => Ordering::Equal,
        Ordering::Greater => Ordering::Less,
    }
}

/// Documents can be sorted by each of the criteria that rank them: a document
/// ties with itself, exchanging two documents gives the opposite order, and
/// what comes first, or ties, stays so across a third document.
pub proof fn law_documents_are_sortable<P: PostingsLists, C: Ranked<P>>(
    criterion: C,
    a: RawDocument<P::Index>,
    b: RawDocument<P::Index>,
    c: RawDocument<P::Index>,
    postings_lists: P,
)
    ensures
        criterion.order(a, a, postings_lists) == Ordering::Equal,
        criterion.order(b, a, postings_lists) == opposite(criterion.order(a, b, postings_lists)),
        criterion.order(a, b, postings_lists) == Ordering::Less && criterion.order(
            b,
            c,
            postings_lists,
        ) != Ordering::Greater ==> criterion.order(a, c, postings_lists) == Ordering::Less,
        criterion.order(a, b, postings_lists) == Ordering::Equal ==> criterion.order(
            a,
            c,
            postings_lists,
        ) == criterion.order(b, c, postings_lists),
{
    criterion.ordered_by_rank(a, a, postings_lists);
    criterion.ordered_by_rank(a, b, postings_lists);
    criterion.ordered_by_rank(b, a, postings_lists);
    criterion.ordered_by_rank(b, c, postings_lists);
    criterion.ordered_by_rank(a, c, postings_lists);
}

/// Of two documents, the one with the smaller rank comes first, and documents tie
/// exactly where their ranks are equal.
pub proof fn law_smaller_ranks_come_first<P: PostingsLists, C: Ranked<P>>(
    criterion: C,
    lhs: RawDocument<P::Index>,
    rhs: RawDocument<P::Index>,
    postings_lists: P,
)
    ensures
        criterion.order(lhs, rhs, postings_lists) == Ordering::Less <==> criterion.rank(lhs)
            < criterion.rank(rhs),
        criterion.order(lhs, rhs, postings_lists) == Ordering::Equal <==> criterion.rank(lhs)
            == criterion.rank(rhs),
        criterion.order(lhs, rhs, postings_lists) == Ordering::Greater <==> criterion.rank(lhs)
            > criterion.rank(rhs),
{
    criterion.ordered_by_rank(lhs, rhs, postings_lists);
}

} // verus!
