//! Documents with smaller identifiers come first.

use std::cmp::Ordering;

use vstd::prelude::*;

use crate::criterion::{by_rank, Criterion, Ranked};
use crate::postings::PostingsLists;
use crate::query_enhancer::QueryEnhancer;
use crate::types::{QueryWordAutomaton, RawDocument};

verus! {

/// The identifier of a document, which its first match holds.
pub open spec fn identifier<I>(document: RawDocument<I>) -> int {
    document.raw_matches@[0].document_id.0 as int
}

/// Orders documents by their identifiers.
pub struct StableDocId;

impl<P: PostingsLists> Criterion<P> for StableDocId {
    open spec fn label(&self) -> Seq<char> {
        "stable document id"@
    }

    open spec fn can_prepare(
        &self,
        documents: Seq<RawDocument<P::Index>>,
        postings_lists: P,
        query_enhancer: QueryEnhancer,
        automatons: Seq<QueryWordAutomaton>,
    ) -> bool {
        true
    }

    open spec fn prepares(
        &self,
        before: (Seq<RawDocument<P::Index>>, P),
        after: (Seq<RawDocument<P::Index>>, P),
        query_enhancer: QueryEnhancer,
        automatons: Seq<QueryWordAutomaton>,
    ) -> bool {
        after == before
    }

    open spec fn can_evaluate(
        &self,
        lhs: RawDocument<P::Index>,
        rhs: RawDocument<P::Index>,
        postings_lists: P,
    ) -> bool {
        lhs.raw_matches@.len() > 0 && rhs.raw_matches@.len() > 0
    }

    open spec fn order(
        &self,
        lhs: RawDocument<P::Index>,
        rhs: RawDocument<P::Index>,
        postings_lists: P,
    ) -> Ordering {
        by_rank(identifier(lhs), identifier(rhs))
    }

    fn name(&self) -> (name: &str) {
        "stable document id"
    }

    fn prepare(
        &self,
        documents: &mut [RawDocument<P::Index>],
        postings_lists: &mut P,
        query_enhancer: &QueryEnhancer,
        automatons: &[QueryWordAutomaton],
    ) {
    }

    fn evaluate(
        &self,
        lhs: &RawDocument<P::Index>,
        rhs: &RawDocument<P::Index>,
        postings_lists: &P,
    ) -> (ordering: Ordering) {
        let lhs: u64 = lhs.raw_matches[0].document_id.0;
        let rhs: u64 = rhs.raw_matches[0].document_id.0;
        lhs.cmp(&rhs)
    }
}

impl<P: PostingsLists> Ranked<P> for StableDocId {
    open spec fn rank(&self, document: RawDocument<P::Index>) -> int {
        identifier(document)
    }

    proof fn ordered_by_rank(
        &self,
        lhs: RawDocument<P::Index>,
        rhs: RawDocument<P::Index>,
        postings_lists: P,
    ) {
    }
}

/// Only documents with the same identifier tie.
pub proof fn law_identifiers_break_ties<P: PostingsLists>(
    lhs: RawDocument<P::Index>,
    rhs: RawDocument<P::Index>,
    postings_lists: P,
)
    requires
        StableDocId.can_evaluate(lhs, rhs, postings_lists),
    ensures
        StableDocId.order(lhs, rhs, postings_lists) == Ordering::Equal
            <==> lhs.raw_matches@[0].document_id == rhs.raw_matches@[0].document_id,
{
}

/// Of two documents whose first matches are known, the one with the smaller
/// identifier comes first.
pub proof fn law_smaller_identifiers_come_first<P: PostingsLists>(
    lhs: RawDocument<P::Index>,
    rhs: RawDocument<P::Index>,
    postings_lists: P,
)
    ensures
        StableDocId.can_evaluate(lhs, rhs, postings_lists) <==> lhs.raw_matches@.len() > 0
            && rhs.raw_matches@.len() > 0,
        StableDocId.order(lhs, rhs, postings_lists) == Ordering::Less
            <==> lhs.raw_matches@[0].document_id.0 < rhs.raw_matches@[0].document_id.0,
        StableDocId.order(lhs, rhs, postings_lists) == Ordering::Greater
            <==> lhs.raw_matches@[0].document_id.0 > rhs.raw_matches@[0].document_id.0,
{
}

/// All documents can be prepared, and preparing changes nothing.
pub proof fn law_identifiers_need_no_preparing<P: PostingsLists>(
    before: (Seq<RawDocument<P::Index>>, P),
    after: (Seq<RawDocument<P::Index>>, P),
    query_enhancer: QueryEnhancer,
    automatons: Seq<QueryWordAutomaton>,
)
    ensures
        StableDocId.can_prepare(before.0, before.1, query_enhancer, automatons),
        StableDocId.prepares(before, after, query_enhancer, automatons) ==> after == before,
{
}

} // verus!
