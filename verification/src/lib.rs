//! A coordination core for concurrent agent sessions over a shared
//! key-value state: session lifecycle with idle reclamation, a blocking
//! ask/answer rendezvous, named checkpoint chains, key-addressed memories,
//! file artifacts, and a fuzzy relevance search across all of them.
//!
//! The state lives in [`store::Store`], an in-process model of the shared
//! keyspace; network transports, terminal rendering and file reading are
//! adapters outside this crate.

use vstd::prelude::*;

pub mod kv;
pub mod laws;
pub mod score;
pub mod seqs;
pub mod sort;
pub mod store;
pub mod models;
pub mod text;

verus! {

/// Default number of results a search request asks for when the caller
/// gives no limit.
pub fn default_limit() -> (n: usize)
    ensures
        n == 25,
{
    25
}

} // verus!
