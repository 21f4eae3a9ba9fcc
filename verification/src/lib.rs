//! Chain-aware state indexing and storage engine.
//!
//! The crate ingests decoded blockchain blocks (Bitcoin and Stacks), archives
//! them, and maintains queryable per-contract state: variable values, map
//! entries, fungible-token balances and non-fungible-token ownership, together
//! with an append-only event log of every mutation. Chain reorganizations are
//! handled by a rollback protocol that un-applies invalidated blocks without
//! corrupting state derived from blocks that remain valid.

pub mod errors;
pub mod types;
pub mod keys;
pub mod archive;
pub mod state;
pub mod applier;
pub mod rollback;
