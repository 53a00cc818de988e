//! A secondary-indexing engine for keyed collections of structured (JSON)
//! documents.
//!
//! A configuration ([`config::Indexer`]) declares which fields of a document
//! to index, by what scalar type and in what direction.  The engine keeps a
//! primary keyed store of accepted documents and three per-field secondary
//! trees (integer, float, string) that support equality, range and
//! glob-pattern lookups.

pub mod batch;
pub mod config;
pub mod fields;
pub mod globpat;
pub mod index;
pub mod jsonval;
pub mod laws;
pub mod model;
pub mod order;
pub mod query;
pub mod store;
pub mod tree;

pub use batch::Batch;
pub use batch::BatchTransaction;
pub use config::IndexFloat;
pub use config::IndexInt;
pub use config::IndexJson;
pub use config::IndexOrd;
pub use config::IndexString;
pub use config::Indexer;
pub use config::JsonPathOrder;
pub use config::Op;
pub use config::UnknownOperatorError;
pub use index::Index;
pub use query::OrderedResult;
pub use query::QueryResult;
