//! Ranking criteria of a full-text search engine.
//!
//! A search first collects, for every document, the raw matches between the
//! words of the query and the words of the document. Criteria then order the
//! documents: each one prepares what it reads of the documents, and decides
//! which of two documents comes first.

pub mod criteria;
pub mod criterion;
pub mod distances;
pub mod grouping;
pub mod padding;
pub mod phrase;
pub mod postings;
pub mod query_enhancer;
pub mod rewrite;
pub mod rewrite_laws;
pub mod sorting;
pub mod types;

pub use criteria::{Attribute, Exact, Proximity, StableDocId, Typo, Words, WordsPosition};
pub use criterion::Criterion;
pub use distances::prepare_query_distances;
pub use postings::{PostingsLists, PostingsTable};
pub use query_enhancer::QueryEnhancer;
pub use rewrite::{multiword_rewrite_matches, prepare_raw_matches};
pub use types::{BareMatch, DocIndex, DocumentId, QueryWordAutomaton, RawDocument, SimpleMatch};
