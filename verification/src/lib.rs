//! An embeddable vector similarity search engine.
//!
//! Vectors are stored as sequences of IEEE-754 bit patterns of their 32-bit
//! float components; all ranking decisions are made over an integer order key
//! derived from those bit patterns, so that every ranking, clustering and
//! persistence decision in this crate is verified. The floating-point kernel
//! (normalization, dot products) lives with the embedding application, which
//! hands scores to this crate as bit patterns.

pub mod codec;
pub mod errors;
pub mod ivf;
pub mod laws;
pub mod rank;
pub mod store;

pub use errors::VectorDBError;
pub use ivf::IVFIndex;
pub use rank::SearchResult;
pub use store::VectorDB;
