//! Tag association over sparse matrices.
//!
//! The crate holds a compressed-row sparse matrix with exact integer cells,
//! the counting of tag pairs that occur together in posts, the filter that
//! keeps the positively associated pairs, and the ranking of the tags most
//! related to a set of seed tags.
//!
//! Cells are `i64`. Counts are stored as they are; association scores are
//! fixed-point numbers whose scale the caller chooses.

pub mod association;
pub mod cooccurrence;
pub mod csr_matrix;
pub mod hashed;
pub mod related;
pub mod sorting;
pub mod tags;

pub use association::get_npmi_matrix;
pub use association::keep_positive;
pub use association::NpmiError;
pub use cooccurrence::count_pairs;
pub use cooccurrence::get_co_count_matrix;
pub use csr_matrix::iter::CSRIter;
pub use csr_matrix::iter::CSRRowIter;
pub use csr_matrix::ops::CsrError;
pub use csr_matrix::CSR;
pub use related::get_most_related_tags;
pub use tags::Tags;
