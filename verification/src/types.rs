//! The records that the criteria read and fill.

use vstd::prelude::*;

verus! {

/// Identifies a document; smaller identifiers come first.
#[derive(Debug, Clone, Copy, PartialEq, Eq, PartialOrd, Ord, Hash)]
pub struct DocumentId(pub u64);

/// One place where a word occurs in a document.
#[derive(Debug, Clone, Copy, PartialEq, Eq, PartialOrd, Ord, Hash)]
pub struct DocIndex {
    /// The attribute in which the word was found.
    pub attribute: u16,
    /// The position of the word in this attribute.
    pub word_index: u16,
}

/// A word of the query that occurs in a document, at the places that
/// a postings list holds. `I` is what finds that list again.
#[derive(Debug, Clone, Copy)]
pub struct BareMatch<I> {
    pub document_id: DocumentId,
    pub query_index: u16,
    pub distance: u8,
    pub is_exact: bool,
    pub postings_list: I,
}

/// A word of the query at one place of a document.
#[derive(Debug, Clone, Copy, PartialEq, Eq, PartialOrd, Ord, Hash)]
pub struct SimpleMatch {
    pub query_index: u16,
    pub distance: u8,
    pub attribute: u16,
    pub word_index: u16,
    pub is_exact: bool,
}

/// A match of one of the two kinds. Both take up space.
pub trait Match {

}

impl<I> Match for BareMatch<I> {

}

impl Match for SimpleMatch {

}

/// A document with the matches found in it, and what the criteria made of them.
#[derive(Debug, Clone)]
pub struct RawDocument<I> {
    pub raw_matches: Vec<BareMatch<I>>,
    pub processed_matches: Vec<SimpleMatch>,
    pub processed_distances: Vec<Option<u8>>,
}

/// What is known of one word of the query.
#[derive(Debug, Clone, Copy, PartialEq, Eq, Hash)]
pub struct QueryWordAutomaton {
    /// For a word of a phrase query, its index in the phrase and the length of the phrase.
    pub phrase_query: Option<(u16, u16)>,
}

} // verus!
