//! The words that stand in for the words of an enhanced query.

use std::ops::Range;

use vstd::prelude::*;

verus! {

/// A query to which alternatives were added (split or joined words, synonyms)
/// numbers its words anew. This tells which words of the query as it was typed
/// each of them stands for.
#[derive(Debug, Clone)]
pub struct QueryEnhancer {
    /// For each word, the first of the words that it stands for, and the one after the last.
    pub replacements: Vec<(u32, u32)>,
}

impl View for QueryEnhancer {
    type V = Seq<(u32, u32)>;

    open spec fn view(&self) -> Seq<(u32, u32)> {
        self.replacements@
    }
}

impl QueryEnhancer {
    /// Returns the query indices to use to replace this query index.
    pub fn replacement(&self, query_index: u32) -> (range: Range<u32>)
        requires
            query_index < self@.len(),
        ensures
            range.start == self@[query_index as int].0,
            range.end == self@[query_index as int].1,
            range.start == self.replacements@[query_index as int].0,
            range.end == self.replacements@[query_index as int].1,
    {
        let (start, end) = self.replacements[query_index as usize];
        Range { start, end }
    }
}

/// An enhancer is what it replaces each word by.
pub proof fn law_enhancers_are_their_replacements(enhancer: QueryEnhancer)
    ensures
        enhancer@ == enhancer.replacements@,
{
}

} // verus!
