//! State retrieval for YANG-modelled providers.
//!
//! A request names a place in the data tree. The library decides which schema
//! nodes below it are walked, what the provider contributes to each of them,
//! which of them another task answers, and what that task is asked. The result
//! is a plan: plain values that a caller writes into a data tree.

pub mod compare;
pub mod context;
pub mod data;
pub mod filter;
pub mod get;
pub mod laws;
pub mod lookup;
pub mod lookup_laws;
pub mod plan;
pub mod provider;
pub mod request_laws;
pub mod schema;
pub mod stream;
pub mod text;
pub mod walk;
pub mod walk_laws;
