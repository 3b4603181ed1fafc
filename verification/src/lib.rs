//! A forest of sorted indexes over quads of 32-bit identifiers.
//!
//! A quad is four identifiers: subject, predicate, object and graph. The
//! forest keeps its quads in a primary tree, sorted in one order of the four
//! positions, and builds trees in other orders when a query can use them.

pub mod adapter;
pub mod dataset;
pub mod index;
pub mod keyset;
pub mod laws;
pub mod latch;
pub mod order;

pub use crate::adapter::ForestOfIdentifierQuads;
pub use crate::dataset::TreedDataset;
pub use crate::index::FilteredIndexQuads;
pub use crate::order::{Block, BlockOrder, TermRole};
