//! An in-memory store of short text memos, with a flat comma-delimited
//! text representation for persistence.
//!
//! The store is an ordered sequence of [`memo::Memo`] records. [`store`]
//! offers append, lookup (shared and exclusive) and removal by identifier;
//! [`codec`] renders a store to the persisted text form and parses that
//! form back, rejecting malformed records.

pub mod codec;
pub mod memo;
pub mod store;
