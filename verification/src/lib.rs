//! In-memory search engine over a fixed catalog of structured records
//! ("capsules"): an immutable index with id / category / tag lookups, an
//! additive relevance-scoring function, an exact substring search pipeline
//! and a typo-tolerant fuzzy search pipeline.
//!
//! Scores are integers throughout: relevance points are whole numbers, and
//! ranked results carry scores in thousandths of a point so that the fuzzy
//! pipeline can scale points by a similarity in [0, 1000] without losing
//! precision.

pub mod clock;
pub mod index;
pub mod models;
pub mod search;
pub mod similarity;
pub mod text;

pub use index::CapsuleIndex;
pub use models::capsule::Capsule;
pub use search::SearchConfig;
pub use search::SearchQuery;
pub use search::SearchResult;
pub use text::lower_of;
