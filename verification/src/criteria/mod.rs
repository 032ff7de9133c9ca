//! The criteria.

pub mod attribute;
pub mod exact;
pub mod proximity;
pub mod stable_doc_id;
pub mod typo;
pub mod words;
pub mod words_position;

pub use attribute::Attribute;
pub use exact::Exact;
pub use proximity::Proximity;
pub use stable_doc_id::StableDocId;
pub use typo::Typo;
pub use words::Words;
pub use words_position::WordsPosition;
