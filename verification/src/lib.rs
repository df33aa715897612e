//! A key-value store kept as one JSON document, with a query pipeline over its entries.
//!
//! The store holds a mapping from keys to byte strings in memory. It is made from the
//! text of its file and gives the text to write back; reading and writing the file is
//! left to the caller. Queries select entries by prefix and filters, sort them, and
//! return one page of the result.

pub mod bytes;
pub mod codec;
pub mod entries;
pub mod laws;
pub mod query;
pub mod sort;
pub mod store;

pub use codec::{OpenError, OpenErrorKind};
pub use query::{Filter, FilterOp, FilterTy, Order, Query};
pub use store::{FlushError, FlushPlan, JsonFileDatastore};
