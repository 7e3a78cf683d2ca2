//! Query-result aggregation over a segmented, read-only tantivy index:
//! validation of facet requests, facet projection, a deterministic order of
//! ranked hits, and lazy retrieval of documents by address.

pub mod address;
pub mod ranking;
pub mod facet;
pub mod search;
pub mod scan;
pub mod searcher;
