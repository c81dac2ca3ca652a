//! An in-memory price registry: a table of price records keyed by
//! generated 128-bit identifiers, with create, get, update, delete and
//! list operations, plus the canonical textual form of the identifiers.

pub mod api;
pub mod ident;
pub mod laws;
pub mod store;
