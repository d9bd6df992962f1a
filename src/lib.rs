//! A personal document library: content-addressed storage of documents,
//! per-document metadata and ranked free-text search over an n-gram index.

pub mod doc;
pub mod engine;
pub mod hash;
pub mod laws;
pub mod library;
pub mod gram;
pub mod pairs;
pub mod rank;

pub use doc::DocId;
pub use hash::DocHash;
