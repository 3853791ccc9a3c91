//! External memory for conversations.
//!
//! A memory holds the turns of a project's sessions and finds those that matter for a query. Turns
//! are taken in once, under an identity ([`ingest`], [`table`]); they are kept with an embedding
//! ([`vectors`], [`embedder`], [`hash_embedder`]), their words ([`text`]) and their entities
//! ([`entities`]). From the turns three views are derived: how often words occur ([`lexical`]), how
//! entities occur together ([`graph`]), and which turns belong together in time ([`windows`]). A
//! query is routed, its candidates are ranked and the best are shown ([`retrieval`], [`relevance`]).
//! All of this comes together in [`store`]; what it keeps over time is stated in [`persistence`].
//! Requests arrive and are answered by [`protocol`], in a process that is set up by [`startup`].
//!
//! Numbers in single precision are represented by their bits. Arithmetic on them, the database and
//! the embedding model belong to the program around this library.

pub mod embedder;
pub mod entities;
pub mod error;
pub mod graph;
pub mod hash_embedder;
pub mod ingest;
pub mod lexical;
pub mod persistence;
pub mod protocol;
pub mod relevance;
pub mod retrieval;
pub mod seqs;
pub mod startup;
pub mod store;
pub mod table;
pub mod tally;
pub mod text;
pub mod turns;
pub mod vectors;
pub mod windows;
