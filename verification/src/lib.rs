//! An in-process, multi-collection vector database.
//!
//! A [`Database`] maps collection names to [`Collection`]s. A collection
//! stores vectors of one fixed dimension together with a value and a source
//! tag per vector, in insertion order. Its nearest-neighbor index is rebuilt
//! only on request and covers the points that were stored at that moment.
//!
//! Vector components and similarity scores are IEEE 754 single-precision
//! numbers, carried as their 32-bit patterns. The nearest-neighbor search
//! itself is done by the host, which hands the neighbors it found to
//! [`Database::query`]; ranking them and resolving them to stored values is
//! done here.

pub mod collection;
pub mod db;
pub mod error;
pub mod index;
pub mod model;

pub use collection::Collection;
pub use db::Database;
pub use error::Error;
pub use index::Hit;
